use vstd::prelude::*;

verus! {

/// The longest identity, in bytes.
pub const MAX_IDENTITY_LEN: usize = 29;

/// An opaque binary principal value: the primary key of a record.
///
/// At most `MAX_IDENTITY_LEN` bytes long, immutable after construction.
#[derive(Clone, Debug)]
pub struct Identity {
    bytes: Vec<u8>,
}

impl View for Identity {
    type V = Seq<u8>;

    closed spec fn view(&self) -> Seq<u8> {
        self.bytes@
    }
}

impl Identity {
    pub open spec fn wf(&self) -> bool {
        self@.len() <= MAX_IDENTITY_LEN
    }

    /// Builds an identity from its raw bytes; rejects oversized input.
    pub fn from_bytes(bytes: Vec<u8>) -> (r: Option<Identity>)
        ensures
            bytes@.len() <= MAX_IDENTITY_LEN ==> (r matches Some(id) && id@ == bytes@ && id.wf()),
            bytes@.len() > MAX_IDENTITY_LEN ==> r is None,
    {
        if bytes.len() <= MAX_IDENTITY_LEN {
            Some(Identity { bytes })
        } else {
            None
        }
    }

    /// The raw bytes of the identity.
    pub fn as_bytes(&self) -> (r: &Vec<u8>)
        ensures
            r@ == self@,
    {
        &self.bytes
    }

    /// A copy holding the same bytes.
    pub fn duplicate(&self) -> (r: Identity)
        ensures
            r@ == self@,
    {
        Identity { bytes: self.bytes.clone() }
    }

    /// A fresh copy of the raw bytes.
    pub fn to_key(&self) -> (r: Vec<u8>)
        ensures
            r@ == self@,
    {
        self.bytes.clone()
    }
}

/// The mathematical value of a stored record.
#[verifier::ext_equal]
pub ghost struct UserView {
    pub principal: Seq<u8>,
    pub username: Option<Seq<char>>,
    pub logo_url: Option<Seq<char>>,
    pub neuron_id: Option<u64>,
    pub followed_topics: Seq<Seq<char>>,
    pub created_at: u64,
    pub updated_at: u64,
}

impl UserView {
    /// Well-formed records: the key fits, and no topic is followed twice.
    pub open spec fn wf(self) -> bool {
        &&& self.principal.len() <= MAX_IDENTITY_LEN
        &&& forall|i: int, j: int|
            0 <= i < j < self.followed_topics.len() ==> self.followed_topics[i]
                != self.followed_topics[j]
    }
}

/// One user record, keyed by `principal`.
///
/// `created_at` and `updated_at` are nanosecond timestamps set by the
/// registry, never by the caller.
#[derive(Clone, Debug)]
pub struct User {
    pub principal: Identity,
    pub username: Option<String>,
    pub logo_url: Option<String>,
    pub neuron_id: Option<u64>,
    pub followed_topics: Vec<String>,
    pub created_at: u64,
    pub updated_at: u64,
}

impl View for User {
    type V = UserView;

    open spec fn view(&self) -> UserView {
        UserView {
            principal: self.principal@,
            username: self.username.deep_view(),
            logo_url: self.logo_url.deep_view(),
            neuron_id: self.neuron_id,
            followed_topics: self.followed_topics.deep_view(),
            created_at: self.created_at,
            updated_at: self.updated_at,
        }
    }
}

impl User {
    pub open spec fn wf(&self) -> bool {
        self@.wf()
    }
}

/// The caller-supplied fields of a create or update request.
#[derive(Clone, Debug)]
pub struct AddUserArgs {
    pub username: Option<String>,
    pub logo_url: Option<String>,
    pub neuron_id: Option<u64>,
}

/// The mathematical value of an `AddUserArgs`.
pub ghost struct ArgsView {
    pub username: Option<Seq<char>>,
    pub logo_url: Option<Seq<char>>,
    pub neuron_id: Option<u64>,
}

impl View for AddUserArgs {
    type V = ArgsView;

    open spec fn view(&self) -> ArgsView {
        ArgsView {
            username: self.username.deep_view(),
            logo_url: self.logo_url.deep_view(),
            neuron_id: self.neuron_id,
        }
    }
}

} // verus!

use vstd::prelude::*;

verus! {

/// The lower-case hex digit for `d` (below 16).
pub open spec fn hex_char(d: int) -> char {
    seq!['0', '1', '2', '3', '4', '5', '6', '7', '8', '9', 'a', 'b', 'c', 'd', 'e', 'f'][d]
}

/// The `j`-th hex digit of `id`, counting from the most significant one.
pub open spec fn nibble_char(id: u128, j: nat) -> char {
    hex_char(((id >> ((4 * (31 - j)) as u128)) & 0xfu128) as int)
}

/// `count` hex digits of `id`, starting with the `from`-th most significant.
pub open spec fn hex_digits(id: u128, from: nat, count: nat) -> Seq<char>
    decreases count,
{
    if count == 0 {
        Seq::empty()
    } else {
        seq![nibble_char(id, from)] + hex_digits(id, from + 1, (count - 1) as nat)
    }
}

/// The canonical text of the 128-bit identifier `id`: its 32 lower-case hex
/// digits, most significant first, in groups of 8, 4, 4, 4 and 12 joined by
/// hyphens.
pub open spec fn uuid_text_of(id: u128) -> Seq<char> {
    hex_digits(id, 0, 8) + seq!['-'] + hex_digits(id, 8, 4) + seq!['-'] + hex_digits(id, 12, 4) + seq!['-']
        + hex_digits(id, 16, 4) + seq!['-'] + hex_digits(id, 20, 12)
}

/// Opaque, globally unique identity, used as a key into persistent stores.
#[derive(Clone, Copy, Debug, PartialEq, Eq, Structural, Hash)]
pub struct Handle {
    pub id: u128,
}

/// Relies on uuid::Uuid::new_v4 (read back with as_u128): a random identifier
/// whose version nibble is 4 and whose variant bits are 0b10.
#[verifier::external_body]
fn random_id() -> (r: u128)
    ensures
        (r >> 76u128) & 0xfu128 == 4,
        (r >> 62u128) & 0x3u128 == 2,
{
    uuid::Uuid::new_v4().as_u128()
}

/// Relies on uuid::Uuid::parse_str: it accepts the hyphenated text that
/// formatting a `Uuid` produces and gives back the same identifier.
#[verifier::external_body]
fn parse_id(s: &str) -> (r: Option<u128>)
    ensures
        forall|x: u128| s@ == uuid_text_of(x) ==> r == Some(x),
{
    match uuid::Uuid::parse_str(s) {
        Ok(u) => Some(u.as_u128()),
        Err(_) => None,
    }
}

/// Relies on uuid::Uuid::from_u128, which keeps the value's big-endian bytes,
/// and on the `Display` of uuid::Uuid: the hyphenated lower-case form of
/// those bytes.
#[verifier::external_body]
fn format_id(id: u128) -> (r: String)
    ensures
        r@ == uuid_text_of(id),
        r@.len() == 36,
{
    uuid::Uuid::from_u128(id).to_string()
}

impl Handle {
    /// A handle with a freshly drawn random identifier.
    pub fn new() -> (r: Handle)
        ensures
            (r.id >> 76u128) & 0xfu128 == 4,
            (r.id >> 62u128) & 0x3u128 == 2,
    {
        Handle { id: random_id() }
    }

    /// Reads a handle back from text; `None` when the text is no identifier.
    /// The canonical text of every handle is accepted.
    pub fn new_from(id: &String) -> (r: Option<Handle>)
        ensures
            forall|x: u128| id@ == uuid_text_of(x) ==> r == Some(Handle { id: x }),
    {
        match parse_id(id.as_str()) {
            Some(x) => Some(Handle { id: x }),
            None => None,
        }
    }

    /// The canonical text of this handle.
    pub fn to_text(&self) -> (r: String)
        ensures
            r@ == uuid_text_of(self.id),
            r@.len() == 36,
    {
        format_id(self.id)
    }
}

} // verus!

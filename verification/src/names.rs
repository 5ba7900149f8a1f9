//! Commit ids and reference names.

use crate::lanes::Place;
use crate::order::{lex_lt, models, Key};
use crate::text::{hex, join, join_text, texts};
use vstd::prelude::*;
use vstd::string::*;

verus! {

/// The id of a git object: the twenty bytes of its SHA-1, as the number that the first sixteen
/// make and the number that the last four make, both with the most significant byte first.
#[derive(Debug, Clone, Copy, PartialEq, Eq, Hash, Structural)]
pub struct ObjectId {
    /// The first sixteen bytes.
    pub hi: u128,
    /// The last four bytes.
    pub lo: u32,
}

impl Key for ObjectId {
    type Model = ObjectId;

    open spec fn model(&self) -> ObjectId {
        *self
    }

    open spec fn lt(a: ObjectId, b: ObjectId) -> bool {
        a.hi < b.hi || (a.hi == b.hi && a.lo < b.lo)
    }

    proof fn lt_irreflexive(a: ObjectId) {
    }

    proof fn lt_transitive(a: ObjectId, b: ObjectId, c: ObjectId) {
    }

    proof fn lt_connected(a: ObjectId, b: ObjectId) {
    }

    fn is_less(&self, other: &ObjectId) -> (r: bool) {
        self.hi < other.hi || (self.hi == other.hi && self.lo < other.lo)
    }
}

impl Place for ObjectId {
    proof fn lemma_model(&self) {
    }

    fn same(&self, other: &ObjectId) -> (r: bool) {
        *self == *other
    }
}

/// The forty hexadecimal digits of `id`.
pub open spec fn id_hex(id: ObjectId) -> Seq<char> {
    hex(id.hi as nat, 32) + hex(id.lo as nat, 8)
}

/// `id` as it stands in reports that show its kind.
pub open spec fn id_debug(id: ObjectId) -> Seq<char> {
    "Sha1("@ + id_hex(id) + ")"@
}

/// `id`, or that there is none, as it stands in reports that show its kind.
pub open spec fn opt_id_debug(id: Option<ObjectId>) -> Seq<char> {
    match id {
        Some(id) => "Some("@ + id_debug(id) + ")"@,
        None => "None"@,
    }
}

/// A list of ids as it stands in reports that show their kind.
pub open spec fn ids_debug(ids: Seq<ObjectId>) -> Seq<char> {
    "["@ + join(ids.map_values(|id: ObjectId| id_debug(id)), ", "@) + "]"@
}

/// Calls `to_string` of `gix::ObjectId`, which shows a SHA-1 as its forty lower-case
/// hexadecimal digits, the most significant digit of each byte first.
#[verifier::external_body]
fn gix_hex(id: ObjectId) -> (r: String)
    ensures
        r@ == id_hex(id),
{
    let mut bytes = [0u8; 20];
    bytes[..16].copy_from_slice(&id.hi.to_be_bytes());
    bytes[16..].copy_from_slice(&id.lo.to_be_bytes());
    gix::ObjectId::from(bytes).to_string()
}

impl ObjectId {
    /// The forty hexadecimal digits.
    pub fn to_hex(&self) -> (r: String)
        ensures
            r@ == id_hex(*self),
    {
        gix_hex(*self)
    }

    /// The id as it stands in reports that show its kind.
    pub fn debug_text(&self) -> (r: String)
        ensures
            r@ == id_debug(*self),
    {
        let mut r = "Sha1(".to_string();
        r.append(gix_hex(*self).as_str());
        r.append(")");
        r
    }
}

/// `id`, or that there is none, as it stands in reports that show its kind.
pub fn opt_id_debug_text(id: Option<ObjectId>) -> (r: String)
    ensures
        r@ == opt_id_debug(id),
{
    match id {
        Some(id) => {
            let mut r = "Some(".to_string();
            r.append(id.debug_text().as_str());
            r.append(")");
            r
        },
        None => "None".to_string(),
    }
}

/// A list of ids as it stands in reports that show their kind.
pub fn ids_debug_text(ids: &Vec<ObjectId>) -> (r: String)
    ensures
        r@ == ids_debug(ids@),
{
    let mut parts: Vec<String> = Vec::new();
    let mut i: usize = 0;
    while i < ids.len()
        invariant
            i <= ids@.len(),
            texts(parts@) =~= ids@.take(i as int).map_values(|id: ObjectId| id_debug(id)),
        decreases ids.len() - i,
    {
        let ghost before = parts@;
        parts.push(ids[i].debug_text());
        assert(texts(parts@) =~= texts(before).push(id_debug(ids@[i as int])));
        assert(ids@.take(i + 1) =~= ids@.take(i as int).push(ids@[i as int]));
        i += 1;
    }
    assert(ids@.take(ids@.len() as int) =~= ids@);
    let mut r = "[".to_string();
    r.append(join_text(&parts, ", ").as_str());
    r.append("]");
    r
}

/// Whether `name` is a full reference name by git's rules.
pub uninterp spec fn valid_ref_name(name: Seq<u8>) -> bool;

/// The text that a reference name is shown as.
pub uninterp spec fn ref_text(name: Seq<u8>) -> Seq<char>;

/// A reference name without the part that only tells its category.
pub uninterp spec fn short_ref_name(name: Seq<u8>) -> Seq<u8>;

/// `refs/heads/`, which the names of local branches start with.
pub open spec fn local_branch_prefix() -> Seq<u8> {
    seq![114u8, 101u8, 102u8, 115u8, 47u8, 104u8, 101u8, 97u8, 100u8, 115u8, 47u8]
}

/// Whether `name` is the name of a local branch.
pub open spec fn local_branch_name(name: Seq<u8>) -> bool {
    local_branch_prefix().is_prefix_of(name)
}

/// Calls `gix::refs::FullName::try_from` on the bytes; the result is whether it accepts them.
#[verifier::external_body]
fn gix_accepts_name(bytes: &Vec<u8>) -> (r: bool)
    ensures
        r == valid_ref_name(bytes@),
{
    gix::refs::FullName::try_from(gix::bstr::BStr::new(bytes.as_slice())).is_ok()
}

/// Calls `category` of `gix::refs::FullName`, which is the category of local branches exactly
/// for the names that start with `refs/heads/`. The name has to be one that gix accepts.
#[verifier::external_body]
fn gix_is_local_branch(bytes: &Vec<u8>) -> (r: bool)
    requires
        valid_ref_name(bytes@),
    ensures
        r == local_branch_name(bytes@),
{
    let name = gix::refs::FullName::try_from(gix::bstr::BStr::new(bytes.as_slice()));
    matches!(
        name.expect("a validated name").category(),
        Some(gix::reference::Category::LocalBranch)
    )
}

/// Each byte stands for a character.
pub open spec fn is_ascii(bytes: Seq<u8>) -> bool {
    forall|i: int| 0 <= i < bytes.len() ==> #[trigger] bytes[i] < 128
}

/// The characters that the bytes stand for.
pub open spec fn ascii_text(bytes: Seq<u8>) -> Seq<char> {
    bytes.map_values(|b: u8| b as char)
}

/// Calls `to_string` of `gix::refs::FullName`, which shows a name of ASCII characters as it is. The
/// name has to be one that gix accepts.
#[verifier::external_body]
fn gix_name_text(bytes: &Vec<u8>) -> (r: String)
    requires
        valid_ref_name(bytes@),
    ensures
        r@ == ref_text(bytes@),
        is_ascii(bytes@) ==> r@ == ascii_text(bytes@),
{
    let name = gix::refs::FullName::try_from(gix::bstr::BStr::new(bytes.as_slice()));
    name.expect("a validated name").to_string()
}

/// Calls `shorten` of `gix::refs::FullName`, which takes `refs/heads/` off the name of a local
/// branch. The name has to be one that gix accepts.
#[verifier::external_body]
fn gix_short_name(bytes: &Vec<u8>) -> (r: Vec<u8>)
    requires
        valid_ref_name(bytes@),
    ensures
        r@ == short_ref_name(bytes@),
        local_branch_name(bytes@) ==> r@ == bytes@.skip(local_branch_prefix().len() as int),
{
    let name = gix::refs::FullName::try_from(gix::bstr::BStr::new(bytes.as_slice()));
    name.expect("a validated name").shorten().to_vec()
}

/// The bytes of a reference name in quotes, with what cannot be shown as it is escaped.
pub uninterp spec fn ref_debug(name: Seq<u8>) -> Seq<char>;

/// The bytes are characters that can be seen, and none of them is a quote or a backslash.
pub open spec fn is_plain(bytes: Seq<u8>) -> bool {
    forall|i: int|
        0 <= i < bytes.len() ==> 0x21 <= #[trigger] bytes[i] <= 0x7e && bytes[i] != 0x22 && bytes[i]
            != 0x27 && bytes[i] != 0x5c
}

/// Calls the `Debug` implementation of `gix::bstr::BStr` on the bytes, which puts plain characters
/// in quotes as they are.
#[verifier::external_body]
fn gix_quoted_bytes(bytes: &Vec<u8>) -> (r: String)
    ensures
        r@ == ref_debug(bytes@),
        is_plain(bytes@) ==> r@ == "\""@ + ascii_text(bytes@) + "\""@,
{
    format!("{:?}", gix::bstr::BStr::new(bytes.as_slice()))
}

/// A text in quotes, with what cannot be shown as it is escaped.
pub uninterp spec fn text_debug(text: Seq<char>) -> Seq<char>;

/// Calls the `Debug` implementation of `str` on the text.
#[verifier::external_body]
fn std_quoted(text: &str) -> (r: String)
    ensures
        r@ == text_debug(text@),
{
    format!("{:?}", text)
}

/// A text in quotes.
pub fn text_debug_text(text: &str) -> (r: String)
    ensures
        r@ == text_debug(text@),
{
    std_quoted(text)
}

/// A list of texts, each in quotes.
pub open spec fn texts_debug(list: Seq<Seq<char>>) -> Seq<char> {
    "["@ + join(list.map_values(|t: Seq<char>| text_debug(t)), ", "@) + "]"@
}

/// A list of texts, each in quotes.
pub fn texts_debug_text(list: &Vec<String>) -> (r: String)
    ensures
        r@ == texts_debug(texts(list@)),
{
    let mut parts: Vec<String> = Vec::new();
    let mut i: usize = 0;
    let ghost f = |t: Seq<char>| text_debug(t);
    while i < list.len()
        invariant
            i <= list@.len(),
            f == (|t: Seq<char>| text_debug(t)),
            texts(parts@) =~= texts(list@).take(i as int).map_values(f),
        decreases list.len() - i,
    {
        let ghost before = parts@;
        parts.push(text_debug_text(list[i].as_str()));
        assert(texts(parts@) =~= texts(before).push(f(list@[i as int]@)));
        i += 1;
    }
    assert(texts(list@).take(list@.len() as int) =~= texts(list@));
    let mut r = "[".to_string();
    r.append(join_text(&parts, ", ").as_str());
    r.append("]");
    r
}

/// A reference name in quotes, or that there is none.
pub open spec fn opt_ref_debug(name: Option<Seq<u8>>) -> Seq<char> {
    match name {
        Some(name) => "Some("@ + ref_debug(name) + ")"@,
        None => "None"@,
    }
}

/// A reference name in quotes, or that there is none.
pub fn opt_ref_debug_text(name: Option<&RefName>) -> (r: String)
    ensures
        r@ == opt_ref_debug(
            match name {
                Some(name) => Some(name@),
                None => None,
            },
        ),
        name matches Some(n) ==> is_plain(n@) ==> r@ == "Some("@ + ("\""@ + ascii_text(n@) + "\""@)
            + ")"@,
{
    match name {
        Some(name) => {
            let mut r = "Some(".to_string();
            r.append(gix_quoted_bytes(name.as_bytes()).as_str());
            r.append(")");
            r
        },
        None => "None".to_string(),
    }
}

/// A full reference name that git accepts.
#[derive(Debug)]
pub struct RefName {
    bytes: Vec<u8>,
}

impl RefName {
    #[verifier::type_invariant]
    spec fn inv(self) -> bool {
        valid_ref_name(self.bytes@)
    }

    /// The bytes of the name.
    pub closed spec fn view(self) -> Seq<u8> {
        self.bytes@
    }

    /// The name with these bytes, if git accepts it.
    pub fn new(bytes: Vec<u8>) -> (r: Option<RefName>)
        ensures
            r is Some <==> valid_ref_name(bytes@),
            r matches Some(name) ==> name@ == bytes@,
    {
        if gix_accepts_name(&bytes) {
            Some(RefName { bytes })
        } else {
            None
        }
    }

    /// The bytes of the name.
    pub fn as_bytes(&self) -> (r: &Vec<u8>)
        ensures
            r@ == self@,
    {
        &self.bytes
    }

    /// Whether both are the same name.
    pub fn same(&self, other: &RefName) -> (r: bool)
        ensures
            r == (self@ == other@),
    {
        if self.bytes.len() != other.bytes.len() {
            return false;
        }
        let mut i: usize = 0;
        while i < self.bytes.len()
            invariant
                i <= self.bytes@.len(),
                self.bytes@.len() == other.bytes@.len(),
                forall|j: int| 0 <= j < i ==> self.bytes@[j] == other.bytes@[j],
            decreases self.bytes.len() - i,
        {
            if self.bytes[i] != other.bytes[i] {
                return false;
            }
            i += 1;
        }
        assert(self@ =~= other@);
        true
    }

    /// Whether this is the name of a local branch.
    pub fn is_local_branch(&self) -> (r: bool)
        ensures
            r == local_branch_name(self@),
    {
        proof {
            use_type_invariant(self);
        }
        gix_is_local_branch(&self.bytes)
    }

    /// The text that the name is shown as.
    pub fn to_text(&self) -> (r: String)
        ensures
            r@ == ref_text(self@),
            is_ascii(self@) ==> r@ == ascii_text(self@),
    {
        proof {
            use_type_invariant(self);
        }
        gix_name_text(&self.bytes)
    }

    /// The name without the part that only tells its category.
    pub fn shorten(&self) -> (r: Vec<u8>)
        ensures
            r@ == short_ref_name(self@),
            local_branch_name(self@) ==> r@ == self@.skip(local_branch_prefix().len() as int),
    {
        proof {
            use_type_invariant(self);
        }
        gix_short_name(&self.bytes)
    }
}

impl Clone for RefName {
    fn clone(&self) -> (r: Self)
        ensures
            r@ == self@,
    {
        proof {
            use_type_invariant(self);
        }
        let bytes = self.bytes.clone();
        assert(bytes@ =~= self.bytes@);
        RefName { bytes }
    }
}

impl Key for RefName {
    type Model = Seq<u8>;

    open spec fn model(&self) -> Seq<u8> {
        self@
    }

    open spec fn lt(a: Seq<u8>, b: Seq<u8>) -> bool {
        lex_lt::<u8>(a, b)
    }

    proof fn lt_irreflexive(a: Seq<u8>) {
        <Vec<u8> as Key>::lt_irreflexive(a);
    }

    proof fn lt_transitive(a: Seq<u8>, b: Seq<u8>, c: Seq<u8>) {
        <Vec<u8> as Key>::lt_transitive(a, b, c);
    }

    proof fn lt_connected(a: Seq<u8>, b: Seq<u8>) {
        <Vec<u8> as Key>::lt_connected(a, b);
    }

    fn is_less(&self, other: &RefName) -> (r: bool) {
        assert(models(self.bytes@) =~= self.bytes@);
        assert(models(other.bytes@) =~= other.bytes@);
        self.bytes.is_less(&other.bytes)
    }
}

} // verus!

//! Buffers of a fixed capacity, from the `heapless` crate.
//!
//! The contents of a buffer are named once for each capacity in use. The
//! traits `Items` and `Text` gather these names, so that one description of
//! each operation serves every capacity.

use vstd::prelude::*;

verus! {

/// `heapless::Vec`: at most `N` items.
#[verifier::external_type_specification]
#[verifier::external_body]
#[verifier::reject_recursive_types(T)]
pub struct ExHeaplessVec<T, const N: usize>(heapless::Vec<T, N>);

/// `heapless::String`: a text of at most `N` bytes of UTF-8.
#[verifier::external_type_specification]
#[verifier::external_body]
pub struct ExHeaplessString<const N: usize>(heapless::String<N>);

/// The bytes in a metrics line.
pub uninterp spec fn line_items(v: heapless::Vec<u8, 256>) -> Seq<u8>;

/// The bytes in a response head.
pub uninterp spec fn head_items(v: heapless::Vec<u8, 1536>) -> Seq<u8>;

/// The bytes in a stash of received bytes.
pub uninterp spec fn stash_items(v: heapless::Vec<u8, 1024>) -> Seq<u8>;

/// The bytes in a chunk's size line.
pub uninterp spec fn size_line_items(v: heapless::Vec<u8, 64>) -> Seq<u8>;

/// The characters of a host name.
pub uninterp spec fn host_text(s: heapless::String<64>) -> Seq<char>;

/// The characters of a request.
pub uninterp spec fn request_text(s: heapless::String<288>) -> Seq<char>;

/// The characters of a percentage.
pub uninterp spec fn percent_text(s: heapless::String<8>) -> Seq<char>;

/// What a byte buffer holds.
pub trait Items {
    /// The bytes, first to last.
    spec fn items(&self) -> Seq<u8>;
}

impl Items for heapless::Vec<u8, 256> {
    open spec fn items(&self) -> Seq<u8> {
        line_items(*self)
    }
}

impl Items for heapless::Vec<u8, 1536> {
    open spec fn items(&self) -> Seq<u8> {
        head_items(*self)
    }
}

impl Items for heapless::Vec<u8, 1024> {
    open spec fn items(&self) -> Seq<u8> {
        stash_items(*self)
    }
}

impl Items for heapless::Vec<u8, 64> {
    open spec fn items(&self) -> Seq<u8> {
        size_line_items(*self)
    }
}

/// What a text buffer holds.
pub trait Text {
    /// The characters, first to last.
    spec fn text(&self) -> Seq<char>;
}

impl Text for heapless::String<64> {
    open spec fn text(&self) -> Seq<char> {
        host_text(*self)
    }
}

impl Text for heapless::String<288> {
    open spec fn text(&self) -> Seq<char> {
        request_text(*self)
    }
}

impl Text for heapless::String<8> {
    open spec fn text(&self) -> Seq<char> {
        percent_text(*self)
    }
}

/// A buffer of capacity `n` that holds `s` has room for one more byte.
pub open spec fn has_room(s: Seq<u8>, n: int) -> bool {
    s.len() < n
}

/// The number of bytes that `s` takes in UTF-8.
pub open spec fn utf8_len(s: Seq<char>) -> int {
    vstd::utf8::encode_utf8(s).len() as int
}

/// `s` followed by `t`, where that fits into `n` bytes, and `s` where not.
pub open spec fn appended(s: Seq<char>, t: Seq<char>, n: int) -> Seq<char> {
    if utf8_len(s) + utf8_len(t) <= n {
        s + t
    } else {
        s
    }
}

/// Two texts one behind the other take the bytes of both.
pub proof fn lemma_utf8_len_adds(s: Seq<char>, t: Seq<char>)
    ensures
        utf8_len(s + t) == utf8_len(s) + utf8_len(t),
    decreases s.len(),
{
    if s.len() == 0 {
        assert(s + t =~= t);
    } else {
        lemma_utf8_len_adds(s.drop_first(), t);
        assert((s + t).drop_first() =~= s.drop_first() + t);
        assert((s + t)[0] == s[0]);
    }
}

/// `heapless::Vec::new`: holds nothing.
#[verifier::external_body]
pub(crate) fn new_bytes<const N: usize>() -> (r: heapless::Vec<u8, N>)
    where
        heapless::Vec<u8, N>: Items,
    ensures
        r.items() == Seq::<u8>::empty(),
{
    heapless::Vec::new()
}

/// `heapless::Vec::push`: puts `b` behind the last item, or changes nothing and
/// hands `b` back where all `N` places are taken.
#[verifier::external_body]
pub(crate) fn push_byte<const N: usize>(v: &mut heapless::Vec<u8, N>, b: u8) -> (r: Result<
    (),
    u8,
>)
    where
        heapless::Vec<u8, N>: Items,
    ensures
        has_room(old(v).items(), N as int) ==> r is Ok,
        has_room(old(v).items(), N as int) ==> final(v).items() == old(v).items().push(b),
        !has_room(old(v).items(), N as int) ==> (r matches Err(back) && back == b),
        !has_room(old(v).items(), N as int) ==> final(v).items() == old(v).items(),
{
    v.push(b)
}

/// `heapless::Vec::pop`: takes the last item away, where there is one.
#[verifier::external_body]
pub(crate) fn pop_byte<const N: usize>(v: &mut heapless::Vec<u8, N>) -> (r: Option<u8>)
    where
        heapless::Vec<u8, N>: Items,
    ensures
        old(v).items().len() == 0 ==> r is None && final(v).items() == old(v).items(),
        old(v).items().len() != 0 ==> r == Some(old(v).items().last()),
        old(v).items().len() != 0 ==> final(v).items() == old(v).items().drop_last(),
{
    v.pop()
}

/// `heapless::Vec::clear`: takes every item away.
#[verifier::external_body]
pub(crate) fn clear_bytes<const N: usize>(v: &mut heapless::Vec<u8, N>)
    where
        heapless::Vec<u8, N>: Items,
    ensures
        final(v).items() == Seq::<u8>::empty(),
{
    v.clear();
}

/// Indexing of a `heapless::Vec` through its slice: replaces the item at `i`.
/// It panics on an index that is not below the length.
#[verifier::external_body]
pub(crate) fn set_byte<const N: usize>(v: &mut heapless::Vec<u8, N>, i: usize, b: u8)
    where
        heapless::Vec<u8, N>: Items,
    requires
        i < old(v).items().len(),
    ensures
        final(v).items() == old(v).items().update(i as int, b),
{
    v[i] = b;
}

/// `heapless::Vec::as_slice`: the items in order, at most as many as fit.
#[verifier::external_body]
pub(crate) fn line_slice(v: &heapless::Vec<u8, 256>) -> (r: &[u8])
    ensures
        r@ == line_items(*v),
        r@.len() <= 256,
{
    v.as_slice()
}

/// `heapless::Vec::as_slice`: the items in order, at most as many as fit.
#[verifier::external_body]
pub(crate) fn head_slice(v: &heapless::Vec<u8, 1536>) -> (r: &[u8])
    ensures
        r@ == head_items(*v),
        r@.len() <= 1536,
{
    v.as_slice()
}

/// `heapless::Vec::as_slice`: the items in order, at most as many as fit.
#[verifier::external_body]
pub(crate) fn stash_slice(v: &heapless::Vec<u8, 1024>) -> (r: &[u8])
    ensures
        r@ == stash_items(*v),
        r@.len() <= 1024,
{
    v.as_slice()
}

/// `heapless::Vec::as_slice`: the items in order, at most as many as fit.
#[verifier::external_body]
pub(crate) fn size_line_slice(v: &heapless::Vec<u8, 64>) -> (r: &[u8])
    ensures
        r@ == size_line_items(*v),
        r@.len() <= 64,
{
    v.as_slice()
}

/// `heapless::String::new`: holds nothing.
#[verifier::external_body]
pub(crate) fn new_text<const N: usize>() -> (r: heapless::String<N>)
    where
        heapless::String<N>: Text,
    ensures
        r.text() == Seq::<char>::empty(),
{
    heapless::String::new()
}

/// `heapless::String::push_str`: puts `t` behind the text, or changes nothing
/// where the bytes of both do not fit.
#[verifier::external_body]
pub(crate) fn push_text<const N: usize>(s: &mut heapless::String<N>, t: &str) -> (r: Result<(), ()>)
    where
        heapless::String<N>: Text,
    ensures
        r is Ok <==> utf8_len(old(s).text()) + utf8_len(t@) <= N,
        final(s).text() == appended(old(s).text(), t@, N as int),
{
    s.push_str(t)
}

/// `heapless::String::push`: puts `c` behind the text, or changes nothing where
/// its bytes do not fit.
#[verifier::external_body]
pub(crate) fn push_char<const N: usize>(s: &mut heapless::String<N>, c: char) -> (r: Result<(), ()>)
    where
        heapless::String<N>: Text,
    ensures
        r is Ok <==> utf8_len(old(s).text()) + utf8_len(seq![c]) <= N,
        final(s).text() == appended(old(s).text(), seq![c], N as int),
{
    s.push(c)
}

/// `heapless::String::clear`: takes the whole text away.
#[verifier::external_body]
pub(crate) fn clear_text<const N: usize>(s: &mut heapless::String<N>)
    where
        heapless::String<N>: Text,
    ensures
        final(s).text() == Seq::<char>::empty(),
{
    s.clear();
}

/// `heapless::String::as_str`: the whole text.
#[verifier::external_body]
pub(crate) fn host_str(s: &heapless::String<64>) -> (r: &str)
    ensures
        r@ == host_text(*s),
        utf8_len(r@) <= 64,
{
    s.as_str()
}

/// `heapless::String::as_str`: the whole text.
#[verifier::external_body]
pub(crate) fn request_str(s: &heapless::String<288>) -> (r: &str)
    ensures
        r@ == request_text(*s),
        utf8_len(r@) <= 288,
{
    s.as_str()
}

/// `heapless::String::as_str`: the whole text.
#[verifier::external_body]
pub(crate) fn percent_str(s: &heapless::String<8>) -> (r: &str)
    ensures
        r@ == percent_text(*s),
        utf8_len(r@) <= 8,
{
    s.as_str()
}

} // verus!

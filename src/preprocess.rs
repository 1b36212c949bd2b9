use vstd::prelude::*;
use crate::symbols::{from_symbols, is_whitespace, to_symbols, whitespace_of};

verus! {

/// The lowercase form of a text.
pub uninterp spec fn lowercase_of(s: Seq<char>) -> Seq<char>;

/// Relies on `str::to_lowercase`: the lowercase form depends on the text alone.
#[verifier::external_body]
fn lowercase(text: &str) -> (r: String)
    ensures
        r@ == lowercase_of(text@),
{
    text.to_lowercase()
}

/// Whether the symbol at `i` survives collapsing: it does unless it is
/// whitespace that follows whitespace.
pub open spec fn keeps(s: Seq<char>, i: int) -> bool {
    !(whitespace_of(s[i]) && i > 0 && whitespace_of(s[i - 1]))
}

/// `s` with each run of whitespace cut to its first symbol.
pub open spec fn collapsed(s: Seq<char>) -> Seq<char>
    decreases s.len(),
{
    if s.len() == 0 {
        Seq::empty()
    } else {
        let k = s.len() - 1;
        collapsed(s.subrange(0, k)) + if keeps(s, k) {
            seq![s[k]]
        } else {
            Seq::empty()
        }
    }
}

/// Cuts each run of whitespace in `text` to its first symbol.
pub fn collapse_whitespace(text: &str) -> (r: String)
    ensures
        r@ == collapsed(text@),
{
    let chars = to_symbols(text);
    let n = chars.len();
    let mut out: Vec<char> = Vec::new();
    let mut prev_was_whitespace = false;
    let mut i: usize = 0;
    assert(chars@.subrange(0, 0) =~= Seq::<char>::empty());
    while i < n
        invariant
            n == chars@.len(),
            i <= n,
            out@ == collapsed(chars@.subrange(0, i as int)),
            prev_was_whitespace == (i > 0 && whitespace_of(chars@[i - 1])),
        decreases n - i,
    {
        let c = chars[i];
        let ws = is_whitespace(c);
        let ghost pre = chars@.subrange(0, i + 1);
        assert(pre.subrange(0, i as int) =~= chars@.subrange(0, i as int));
        assert(keeps(pre, i as int) == keeps(chars@, i as int));
        if !(ws && prev_was_whitespace) {
            out.push(c);
        }
        assert(out@ =~= collapsed(pre));
        prev_was_whitespace = ws;
        i = i + 1;
    }
    assert(chars@.subrange(0, n as int) =~= chars@);
    from_symbols(&out)
}

/// Lowercases `text`, and cuts each run of whitespace to its first symbol
/// when `trim_whitespace` is set.
pub fn preprocess_text_with_options(text: &str, trim_whitespace: bool) -> (r: String)
    ensures
        trim_whitespace ==> r@ == collapsed(lowercase_of(text@)),
        !trim_whitespace ==> r@ == lowercase_of(text@),
{
    let lowered = lowercase(text);
    if trim_whitespace {
        collapse_whitespace(lowered.as_str())
    } else {
        lowered
    }
}

/// Lowercases `text`.
pub fn preprocess_text(text: &str) -> (r: String)
    ensures
        r@ == lowercase_of(text@),
{
    preprocess_text_with_options(text, false)
}

} // verus!

//! The first stage of compilation: everything that is not one of the eight
//! symbols is dropped from the source text.

use vstd::prelude::*;

verus! {

/// The symbols that change the current cell.
pub open spec fn is_value_symbol(c: char) -> bool {
    c == '+' || c == '-'
}

/// The symbols that move the cursor.
pub open spec fn is_pointer_symbol(c: char) -> bool {
    c == '>' || c == '<'
}

/// The eight symbols of the language.
pub open spec fn is_symbol(c: char) -> bool {
    is_value_symbol(c) || is_pointer_symbol(c) || c == '[' || c == ']' || c == '.' || c == ','
}

/// The text with every character that is not a symbol removed.
pub open spec fn minify_spec(s: Seq<char>) -> Seq<char>
    decreases s.len(),
{
    if s.len() == 0 {
        Seq::empty()
    } else if is_symbol(s.last()) {
        minify_spec(s.drop_last()).push(s.last())
    } else {
        minify_spec(s.drop_last())
    }
}

/// Whether a character is one of the eight symbols.
pub fn symbol(c: char) -> (r: bool)
    ensures
        r == is_symbol(c),
{
    c == '+' || c == '-' || c == '>' || c == '<' || c == '[' || c == ']' || c == '.' || c == ','
}

/// Removes every character that is not one of the eight symbols, keeping the
/// order of the rest.
pub fn minify(source: &str) -> (r: Vec<char>)
    ensures
        r@ == minify_spec(source@),
{
    let mut out: Vec<char> = Vec::new();
    for c in it: source.chars()
        invariant
            it.seq() == source@,
            out@ == minify_spec(source@.take(it.index() as int)),
    {
        proof {
            let next = source@.take(it.index() + 1);
            assert(next.drop_last() =~= source@.take(it.index() as int));
            assert(next.last() == c);
        }
        if symbol(c) {
            out.push(c);
        }
    }
    proof {
        assert(source@.take(source@.len() as int) =~= source@);
    }
    out
}

/// Filtering a text that holds only symbols changes nothing.
pub proof fn lemma_minify_of_symbols(s: Seq<char>)
    requires
        forall|i: int| 0 <= i < s.len() ==> is_symbol(#[trigger] s[i]),
    ensures
        minify_spec(s) == s,
    decreases s.len(),
{
    if s.len() > 0 {
        lemma_minify_of_symbols(s.drop_last());
        assert(s.drop_last().push(s.last()) =~= s);
    }
}

/// What the filter keeps is made of symbols only.
pub proof fn lemma_minified_holds_symbols(s: Seq<char>)
    ensures
        forall|i: int| 0 <= i < minify_spec(s).len() ==> is_symbol(#[trigger] minify_spec(s)[i]),
    decreases s.len(),
{
    if s.len() > 0 {
        lemma_minified_holds_symbols(s.drop_last());
        let head = minify_spec(s.drop_last());
        assert forall|i: int| 0 <= i < minify_spec(s).len() implies is_symbol(
            #[trigger] minify_spec(s)[i],
        ) by {
            if i < head.len() {
                assert(minify_spec(s)[i] == head[i]);
            }
        }
    }
}

/// Filtering is idempotent: a second pass over filtered text is a no-op.
pub proof fn lemma_minify_idempotent(s: Seq<char>)
    ensures
        minify_spec(minify_spec(s)) == minify_spec(s),
{
    lemma_minified_holds_symbols(s);
    lemma_minify_of_symbols(minify_spec(s));
}

/// The filter never lengthens a text.
pub proof fn lemma_minify_shorter(s: Seq<char>)
    ensures
        minify_spec(s).len() <= s.len(),
    decreases s.len(),
{
    if s.len() > 0 {
        lemma_minify_shorter(s.drop_last());
    }
}

} // verus!

//! What the library reads out of text: surrounding white space, and the
//! alphabets of its names.

use vstd::prelude::*;

verus! {

/// The Unicode property `White_Space`.
pub open spec fn is_white_space(c: char) -> bool {
    ||| '\u{9}' <= c <= '\u{d}'
    ||| c == '\u{20}'
    ||| c == '\u{85}'
    ||| c == '\u{a0}'
    ||| c == '\u{1680}'
    ||| '\u{2000}' <= c <= '\u{200a}'
    ||| c == '\u{2028}'
    ||| c == '\u{2029}'
    ||| c == '\u{202f}'
    ||| c == '\u{205f}'
    ||| c == '\u{3000}'
}

/// `s` without its leading white space.
pub open spec fn trimmed_start(s: Seq<char>) -> Seq<char>
    decreases s.len(),
{
    if s.len() > 0 && is_white_space(s[0]) {
        trimmed_start(s.skip(1))
    } else {
        s
    }
}

/// `s` without its trailing white space.
pub open spec fn trimmed_end(s: Seq<char>) -> Seq<char>
    decreases s.len(),
{
    if s.len() > 0 && is_white_space(s.last()) {
        trimmed_end(s.drop_last())
    } else {
        s
    }
}

/// `s` without its leading and trailing white space.
pub open spec fn trimmed(s: Seq<char>) -> Seq<char> {
    trimmed_end(trimmed_start(s))
}

/// `str::trim` returns the slice that is left when leading and trailing
/// characters with the property `White_Space` are removed.
pub assume_specification[ str::trim ](s: &str) -> (r: &str)
    ensures
        r@ == trimmed(s@),
;

proof fn lemma_trimmed_start_ends(s: Seq<char>)
    ensures
        trimmed_start(s).len() <= s.len(),
        trimmed_start(s).len() > 0 ==> !is_white_space(trimmed_start(s)[0]),
        trimmed_start(s).len() > 0 ==> trimmed_start(s).last() == s.last(),
    decreases s.len(),
{
    if s.len() > 0 && is_white_space(s[0]) {
        lemma_trimmed_start_ends(s.skip(1));
    }
}

proof fn lemma_trimmed_end_ends(s: Seq<char>)
    ensures
        trimmed_end(s).len() <= s.len(),
        trimmed_end(s).len() > 0 ==> !is_white_space(trimmed_end(s).last()),
        trimmed_end(s).len() > 0 ==> trimmed_end(s)[0] == s[0],
    decreases s.len(),
{
    if s.len() > 0 && is_white_space(s.last()) {
        lemma_trimmed_end_ends(s.drop_last());
    }
}

/// Trimming is idempotent: a trimmed text has nothing left to trim.
pub proof fn trimming_is_idempotent(s: Seq<char>)
    ensures
        trimmed(trimmed(s)) == trimmed(s),
{
    lemma_trimmed_start_ends(s);
    lemma_trimmed_end_ends(trimmed_start(s));
}

/// A text that neither starts nor ends with white space is its own trimming.
pub proof fn nothing_to_trim(s: Seq<char>)
    requires
        s.len() > 0,
        !is_white_space(s[0]),
        !is_white_space(s.last()),
    ensures
        trimmed(s) == s,
{
}

/// `s` in quotes, with its special characters escaped, as the standard
/// library's `Debug` for `str` writes it.
pub uninterp spec fn quoted(s: Seq<char>) -> Seq<char>;

/// `format!` with `{:?}` of a `str`: the text depends on the characters of
/// `s` alone. Which characters are escaped, and how, is left unsaid.
#[verifier::external_body]
pub(crate) fn quote(s: &str) -> (r: String)
    ensures
        r@ == quoted(s@),
{
    format!("{s:?}")
}

/// `std::fmt::Formatter`, which a `Debug` writes to. Nothing is known of what
/// is inside.
#[verifier::external_type_specification]
#[verifier::external_body]
pub struct ExFormatter<'a>(std::fmt::Formatter<'a>);

/// `std::fmt::Error`, which a failed write to a formatter gives. Nothing is
/// known of what is inside.
#[verifier::external_type_specification]
#[verifier::external_body]
pub struct ExFormatError(std::fmt::Error);

/// Every character of `s` is white space.
pub open spec fn all_white(s: Seq<char>) -> bool {
    forall|i: int| 0 <= i < s.len() ==> is_white_space(#[trigger] s[i])
}

/// `core` neither starts nor ends with white space, and is not empty.
pub open spec fn is_core(core: Seq<char>) -> bool {
    core.len() > 0 && !is_white_space(core[0]) && !is_white_space(core.last())
}

proof fn lemma_trimmed_start_of(before: Seq<char>, rest: Seq<char>)
    requires
        all_white(before),
        rest.len() > 0 ==> !is_white_space(rest[0]),
    ensures
        trimmed_start(before + rest) == rest,
    decreases before.len(),
{
    let all = before + rest;
    if before.len() == 0 {
        assert(all =~= rest);
    } else {
        assert(all[0] == before[0]);
        assert(all.skip(1) =~= before.skip(1) + rest);
        assert forall|i: int| 0 <= i < before.skip(1).len() implies is_white_space(
            #[trigger] before.skip(1)[i],
        ) by {
            assert(before.skip(1)[i] == before[i + 1]);
        }
        lemma_trimmed_start_of(before.skip(1), rest);
    }
}

proof fn lemma_trimmed_end_of(rest: Seq<char>, after: Seq<char>)
    requires
        all_white(after),
        rest.len() > 0 ==> !is_white_space(rest.last()),
    ensures
        trimmed_end(rest + after) == rest,
    decreases after.len(),
{
    let all = rest + after;
    if after.len() == 0 {
        assert(all =~= rest);
    } else {
        assert(all.last() == after[after.len() - 1]);
        let fewer = after.drop_last();
        assert(all.drop_last() =~= rest + fewer);
        assert forall|i: int| 0 <= i < fewer.len() implies is_white_space(
            #[trigger] fewer[i],
        ) by {
            assert(fewer[i] == after[i]);
        }
        lemma_trimmed_end_of(rest, fewer);
    }
}

/// Trimming takes off the white space around a text, all of it and nothing
/// else.
pub proof fn trimming_uncovers_the_core(before: Seq<char>, core: Seq<char>, after: Seq<char>)
    requires
        all_white(before),
        all_white(after),
        is_core(core),
    ensures
        trimmed(before + core + after) == core,
{
    assert(before + core + after =~= before + (core + after));
    lemma_trimmed_start_of(before, core + after);
    lemma_trimmed_end_of(core, after);
}

/// Of white space alone, trimming leaves nothing.
pub proof fn white_space_is_trimmed_away(s: Seq<char>)
    requires
        all_white(s),
    ensures
        trimmed(s).len() == 0,
{
    let none = Seq::<char>::empty();
    assert(s + none =~= s);
    lemma_trimmed_start_of(s, none);
}

/// A text is either white space alone, or a core with white space around it,
/// which then is what trimming leaves.
pub proof fn texts_have_a_core(s: Seq<char>) -> (w: (Seq<char>, Seq<char>))
    ensures
        all_white(w.0),
        all_white(w.1),
        s == w.0 + trimmed(s) + w.1,
        trimmed(s).len() == 0 || is_core(trimmed(s)),
        trimmed(s).len() == 0 <==> all_white(s),
{
    let before = lemma_split_start(s);
    let middle = trimmed_start(s);
    let after = lemma_split_end(middle);
    lemma_trimmed_start_ends(s);
    lemma_trimmed_end_ends(middle);
    assert(s =~= before + trimmed(s) + after);
    if all_white(s) {
        white_space_is_trimmed_away(s);
    }
    if trimmed(s).len() == 0 {
        assert forall|i: int| 0 <= i < s.len() implies is_white_space(#[trigger] s[i]) by {
            if i < before.len() {
                assert(s[i] == before[i]);
            } else {
                assert(s[i] == after[i - before.len()]);
            }
        }
    }
    (before, after)
}

proof fn lemma_split_start(s: Seq<char>) -> (before: Seq<char>)
    ensures
        all_white(before),
        s == before + trimmed_start(s),
    decreases s.len(),
{
    if s.len() > 0 && is_white_space(s[0]) {
        let more = lemma_split_start(s.skip(1));
        let before = seq![s[0]] + more;
        assert(s =~= seq![s[0]] + s.skip(1));
        assert(trimmed_start(s) == trimmed_start(s.skip(1)));
        assert(s =~= before + trimmed_start(s));
        assert forall|i: int| 0 <= i < before.len() implies is_white_space(
            #[trigger] before[i],
        ) by {
            if i > 0 {
                assert(before[i] == more[i - 1]);
            }
        }
        before
    } else {
        let before = Seq::<char>::empty();
        assert(s =~= before + s);
        before
    }
}

proof fn lemma_split_end(s: Seq<char>) -> (after: Seq<char>)
    ensures
        all_white(after),
        s == trimmed_end(s) + after,
    decreases s.len(),
{
    if s.len() > 0 && is_white_space(s.last()) {
        let more = lemma_split_end(s.drop_last());
        let after = more.push(s.last());
        assert(s =~= s.drop_last().push(s.last()));
        assert(trimmed_end(s) == trimmed_end(s.drop_last()));
        assert(s =~= trimmed_end(s) + after);
        assert forall|i: int| 0 <= i < after.len() implies is_white_space(
            #[trigger] after[i],
        ) by {
            if i < more.len() {
                assert(after[i] == more[i]);
            }
        }
        after
    } else {
        let after = Seq::<char>::empty();
        assert(s =~= s + after);
        after
    }
}

/// The characters that count as white space, in order.
pub open spec fn white_spaces() -> Seq<char> {
    seq![
        '\u{9}',
        '\u{a}',
        '\u{b}',
        '\u{c}',
        '\u{d}',
        '\u{20}',
        '\u{85}',
        '\u{a0}',
        '\u{1680}',
        '\u{2000}',
        '\u{2001}',
        '\u{2002}',
        '\u{2003}',
        '\u{2004}',
        '\u{2005}',
        '\u{2006}',
        '\u{2007}',
        '\u{2008}',
        '\u{2009}',
        '\u{200a}',
        '\u{2028}',
        '\u{2029}',
        '\u{202f}',
        '\u{205f}',
        '\u{3000}',
    ]
}

/// White space is what the list of white space holds, and nothing else.
pub proof fn white_space_is_listed(c: char)
    ensures
        is_white_space(c) <==> white_spaces().contains(c),
{
    let all = white_spaces();
    if is_white_space(c) {
        let i: int = if c <= '\u{d}' {
            c as int - 0x9
        } else if c == '\u{20}' {
            5
        } else if c == '\u{85}' {
            6
        } else if c == '\u{a0}' {
            7
        } else if c == '\u{1680}' {
            8
        } else if c <= '\u{200a}' {
            c as int - 0x2000 + 9
        } else if c == '\u{2028}' {
            20
        } else if c == '\u{2029}' {
            21
        } else if c == '\u{202f}' {
            22
        } else if c == '\u{205f}' {
            23
        } else {
            24
        };
        assert(0 <= i < 25);
        assert(all[i] == c);
    }
}

} // verus!

//! Formatting of labelled snapshot cases: one block per case, each block a
//! label followed by its fields.

use vstd::prelude::*;

verus! {

/// The characters with the Unicode property `White_Space`.
pub open spec fn is_white_space(c: char) -> bool {
    ('\u{9}' <= c && c <= '\u{d}') || c == ' ' || c == '\u{85}' || c == '\u{a0}' || c
        == '\u{1680}' || ('\u{2000}' <= c && c <= '\u{200a}') || c == '\u{2028}' || c
        == '\u{2029}' || c == '\u{202f}' || c == '\u{205f}' || c == '\u{3000}'
}

/// `chars` without its trailing white space.
pub open spec fn trim_end_spec(chars: Seq<char>) -> Seq<char>
    decreases chars.len(),
{
    if chars.len() > 0 && is_white_space(chars.last()) {
        trim_end_spec(chars.drop_last())
    } else {
        chars
    }
}

/// The eight spaces that continue an indented line.
pub open spec fn indentation() -> Seq<char> {
    seq![' ', ' ', ' ', ' ', ' ', ' ', ' ', ' ']
}

/// `chars` with every line break followed by the indentation.
pub open spec fn indent_spec(chars: Seq<char>) -> Seq<char>
    decreases chars.len(),
{
    if chars.len() == 0 {
        Seq::empty()
    } else if chars.last() == '\n' {
        indent_spec(chars.drop_last()) + seq!['\n'] + indentation()
    } else {
        indent_spec(chars.drop_last()) + seq![chars.last()]
    }
}

/// The line of a field: `label: ` and the value, trimmed at its end and
/// indented, between backticks.
pub open spec fn field_line(label: Seq<char>, value: Seq<char>) -> Seq<char> {
    label + seq![':', ' ', '`'] + indent_spec(trim_end_spec(value)) + seq!['`']
}

/// `parts` joined with `separator` between each two of them.
pub open spec fn join_spec(parts: Seq<Seq<char>>, separator: Seq<char>) -> Seq<char>
    decreases parts.len(),
{
    if parts.len() == 0 {
        Seq::empty()
    } else if parts.len() == 1 {
        parts[0]
    } else {
        join_spec(parts.drop_last(), separator) + separator + parts.last()
    }
}

/// `str::trim_end`.
///
/// Claimed: it removes the trailing characters with the Unicode property
/// `White_Space`, as its documentation states.
#[verifier::external_body]
fn trim_end(text: &str) -> (trimmed: &str)
    ensures
        trimmed@ == trim_end_spec(text@),
{
    text.trim_end()
}

/// Appends `text` to `out` with every line break followed by the
/// indentation.
fn push_indented(out: &mut String, text: &str)
    ensures
        final(out)@ == old(out)@ + indent_spec(text@),
{
    let ghost start = out@;
    for c in iter: text.chars()
        invariant
            out@ == start + indent_spec(iter.seq().take(iter.index() as int)),
            iter.seq() == text@,
    {
        let ghost before = iter.seq().take(iter.index() as int);
        proof {
            assert(iter.seq().take(iter.index() + 1).drop_last() =~= before);
        }
        crate::text::push_char(out, c);
        if c == '\n' {
            let mut n: usize = 0;
            while n < 8
                invariant
                    n <= 8,
                    out@ == start + indent_spec(before) + seq!['\n'] + indentation().take(n as int),
                decreases 8 - n,
            {
                crate::text::push_char(out, ' ');
                proof {
                    assert(indentation().take(n + 1) =~= indentation().take(n as int).push(' '));
                }
                n = n + 1;
            }
            assert(indentation().take(8) =~= indentation());
        }
        proof {
            assert(out@ =~= start + indent_spec(iter.seq().take(iter.index() + 1)));
        }
    }
    proof {
        assert(text@.take(text@.len() as int) =~= text@);
    }
}

/// Formats one snapshot case: its label, then one line per field.
pub fn fmt_snapshot_case(label: &str, fields: &[(&str, &str)]) -> (formatted: String)
    ensures
        formatted@ == label@ + seq!['\n'] + join_spec(
            fields@.map_values(|field: (&str, &str)| field_line(field.0@, field.1@)),
            seq!['\n'],
        ),
{
    let ghost lines = fields@.map_values(|field: (&str, &str)| field_line(field.0@, field.1@));
    let mut formatted = String::new();
    crate::text::push_str(&mut formatted, label);
    crate::text::push_char(&mut formatted, '\n');
    let ghost head = formatted@;
    let mut i: usize = 0;
    while i < fields.len()
        invariant
            i <= fields@.len(),
            lines == fields@.map_values(|field: (&str, &str)| field_line(field.0@, field.1@)),
            head == label@ + seq!['\n'],
            formatted@ == head + join_spec(lines.take(i as int), seq!['\n']),
        decreases fields@.len() - i,
    {
        let ghost before = formatted@;
        if i > 0 {
            crate::text::push_char(&mut formatted, '\n');
        }
        let (name, value) = fields[i];
        crate::text::push_str(&mut formatted, name);
        crate::text::push_char(&mut formatted, ':');
        crate::text::push_char(&mut formatted, ' ');
        crate::text::push_char(&mut formatted, '`');
        push_indented(&mut formatted, trim_end(value));
        crate::text::push_char(&mut formatted, '`');
        proof {
            let taken = lines.take(i + 1);
            assert(taken.drop_last() =~= lines.take(i as int));
            assert(taken.last() == field_line(name@, value@));
            if i == 0 {
                assert(join_spec(lines.take(0), seq!['\n']) =~= Seq::<char>::empty());
                assert(formatted@ =~= head + field_line(name@, value@));
            } else {
                assert(formatted@ =~= before + seq!['\n'] + field_line(name@, value@));
            }
        }
        i = i + 1;
    }
    proof {
        assert(lines.take(fields@.len() as int) =~= lines);
    }
    formatted
}

/// Formats each of `cases` with `format` and joins the results with an empty
/// line between each two.
pub fn fmt_snapshot_cases<Case, Format: Fn(Case) -> String>(cases: Vec<Case>, format: Format) -> (res:
    String)
    requires
        forall|i: int| 0 <= i < cases@.len() ==> call_requires(format, (#[trigger] cases@[i],)),
    ensures
        exists|outs: Seq<String>|
            {
                &&& outs.len() == cases@.len()
                &&& forall|i: int|
                    0 <= i < cases@.len() ==> call_ensures(format, (cases@[i],), #[trigger] outs[i])
                &&& res@ == join_spec(outs.map_values(|out: String| out@), seq!['\n', '\n'])
            },
{
    let ghost all = cases@;
    let mut joined = String::new();
    let ghost mut outs: Seq<String> = Seq::empty();
    let mut first = true;
    for case in iter: cases
        invariant
            iter.seq() == all,
            forall|i: int| 0 <= i < all.len() ==> call_requires(format, (#[trigger] all[i],)),
            outs.len() == iter.index(),
            first == (iter.index() == 0),
            forall|i: int| 0 <= i < outs.len() ==> call_ensures(format, (all[i],), #[trigger] outs[i]),
            joined@ == join_spec(outs.map_values(|out: String| out@), seq!['\n', '\n']),
    {
        let ghost before = joined@;
        let ghost before_outs = outs;
        let text = format(case);
        if !first {
            crate::text::push_char(&mut joined, '\n');
            crate::text::push_char(&mut joined, '\n');
        }
        crate::text::push_str(&mut joined, text.as_str());
        first = false;
        proof {
            outs = outs.push(text);
            let views = outs.map_values(|out: String| out@);
            assert(views.drop_last() =~= before_outs.map_values(|out: String| out@));
            if before_outs.len() == 0 {
                assert(joined@ =~= text@);
            } else {
                assert(joined@ =~= before + seq!['\n', '\n'] + text@);
            }
        }
    }
    joined
}

} // verus!

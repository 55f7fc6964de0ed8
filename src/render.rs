//! Rendering the values columns of an output line.

use vstd::prelude::*;

verus! {

use crate::extract::strings_view;

/// A cell: the value, wrapped in single quotes when asked.
pub open spec fn cell(v: Seq<char>, quote: bool) -> Seq<char> {
    if quote {
        seq!['\''] + v + seq!['\'']
    } else {
        v
    }
}

/// The cells of the values, joined by the delimiter.
pub open spec fn rendered(vals: Seq<Seq<char>>, quote: bool, delim: Seq<char>) -> Seq<char>
    decreases vals.len(),
{
    if vals.len() == 0 {
        Seq::empty()
    } else if vals.len() == 1 {
        cell(vals[0], quote)
    } else {
        rendered(vals.drop_last(), quote, delim) + delim + cell(vals.last(), quote)
    }
}

/// Relies on `String::push_str`: appends the text.
#[verifier::external_body]
fn push_text(s: &mut String, t: &str)
    ensures
        final(s)@ == old(s)@ + t@,
{
    s.push_str(t);
}

/// The values columns of a line: each value, quoted when `quote` is set,
/// joined by `delim`.
pub fn render_values(values: &Vec<String>, quote: bool, delim: &str) -> (r: String)
    ensures
        r@ == rendered(strings_view(values@), quote, delim@),
{
    let ghost sv = strings_view(values@);
    let mut r = String::new();
    let mut i: usize = 0;
    while i < values.len()
        invariant
            i <= values@.len(),
            sv == strings_view(values@),
            r@ == rendered(sv.subrange(0, i as int), quote, delim@),
        decreases values@.len() - i,
    {
        let ghost before = r@;
        if i > 0 {
            push_text(&mut r, delim);
        }
        if quote {
            push_text(&mut r, "'");
        }
        push_text(&mut r, values[i].as_str());
        if quote {
            push_text(&mut r, "'");
        }
        proof {
            reveal_strlit("'");
            let pre = sv.subrange(0, i as int);
            let post = sv.subrange(0, i + 1);
            assert(post.drop_last() =~= pre);
            assert(post.last() == values@[i as int]@);
            if i == 0 {
                assert(before =~= Seq::<char>::empty());
            }
            assert(r@ =~= rendered(post, quote, delim@));
        }
        i = i + 1;
    }
    assert(sv.subrange(0, i as int) =~= sv);
    r
}

/// An output line of a frequency table: the values columns, then, unless
/// `no_freq`, the delimiter and the frequency's text.
pub fn render_line(values: &Vec<String>, quote: bool, no_freq: bool, delim: &str, frequency: &str) -> (r: String)
    ensures
        r@ == if no_freq {
            rendered(strings_view(values@), quote, delim@)
        } else {
            rendered(strings_view(values@), quote, delim@) + delim@ + frequency@
        },
{
    let mut r = render_values(values, quote, delim);
    if !no_freq {
        push_text(&mut r, delim);
        push_text(&mut r, frequency);
    }
    r
}

} // verus!

//! Text utilities: URL-friendly slugs, markdown rendering, and a greeting
//! formatter.

use vstd::prelude::*;
use crate::strutil::chars_of;
use crate::strutil::string_of;
use crate::strutil::push_char;
use crate::strutil::append_str;
use crate::http::split_char;
use crate::http::split_chars;
use crate::http::seg_views;

verus! {

broadcast use vstd::seq_lib::group_filter_ensures;

/// What `str::to_lowercase` returns: a function of the characters alone.
pub uninterp spec fn lower_of(s: Seq<char>) -> Seq<char>;

/// Whether `char::is_alphanumeric` accepts a character.
pub uninterp spec fn char_alnum(c: char) -> bool;

/// Lower-case a string.
///
/// Relies on `str::to_lowercase`: the result depends on the characters
/// alone, and an empty string stays empty.
#[verifier::external_body]
fn to_lowercase(s: &str) -> (r: String)
    ensures
        r@ == lower_of(s@),
        s@.len() == 0 ==> r@.len() == 0,
{
    s.to_lowercase()
}

/// Is the character alphanumeric?
///
/// Relies on `char::is_alphanumeric`; on the ASCII range its documentation
/// pins the answer to the letters and digits.
#[verifier::external_body]
fn is_alnum(c: char) -> (r: bool)
    ensures
        r == char_alnum(c),
        ('a' <= c && c <= 'z') ==> r,
        ('A' <= c && c <= 'Z') ==> r,
        ('0' <= c && c <= '9') ==> r,
        (c == ' ' || c == '-' || c == '_' || c == '!' || c == '.' || c == ',' || c == '?') ==> !r,
{
    c.is_alphanumeric()
}

/// Every character that is neither alphanumeric nor a space becomes a
/// space.
pub open spec fn spaced_out(s: Seq<char>) -> Seq<char> {
    Seq::new(
        s.len(),
        |i: int|
            if char_alnum(s[i]) || s[i] == ' ' {
                s[i]
            } else {
                ' '
            },
    )
}

/// Words joined by single dashes.
pub open spec fn join_dash(ws: Seq<Seq<char>>) -> Seq<char>
    decreases ws.len(),
{
    if ws.len() == 0 {
        Seq::empty()
    } else if ws.len() == 1 {
        ws[0]
    } else {
        join_dash(ws.drop_last()) + seq!['-'] + ws.last()
    }
}

/// The slug of an already lower-cased text: punctuation becomes spaces, and
/// the space-separated words are joined by dashes.
pub open spec fn slug_of(s: Seq<char>) -> Seq<char> {
    join_dash(split_char(spaced_out(s), ' ').filter(|w: Seq<char>| w.len() > 0))
}

/// Turn a title into a URL slug: lower-case it, keep letters and digits,
/// and join the remaining words with dashes.
pub fn slugify(text: &str) -> (r: String)
    ensures
        r@ == slug_of(lower_of(text@)),
{
    let lowered = to_lowercase(text);
    let cs = chars_of(lowered.as_str());
    let n = cs.len();

    let mut mapped: Vec<char> = Vec::new();
    let mut i: usize = 0;
    while i < n
        invariant
            n == cs.len(),
            i <= n,
            mapped@ == spaced_out(cs@).take(i as int),
        decreases n - i,
    {
        let c = cs[i];
        if is_alnum(c) || c == ' ' {
            mapped.push(c);
        } else {
            mapped.push(' ');
        }
        proof {
            assert(mapped@ =~= spaced_out(cs@).take(i + 1));
        }
        i += 1;
    }
    proof {
        assert(mapped@ =~= spaced_out(cs@));
    }

    let parts = split_chars(&mapped, ' ');
    let ghost ws = seg_views(parts@);
    let ghost keep = |w: Seq<char>| w.len() > 0;
    let m = parts.len();
    let mut out: Vec<char> = Vec::new();
    let mut first = true;
    let mut j: usize = 0;
    proof {
        assert(ws.take(0) =~= Seq::<Seq<char>>::empty());
        assert(Seq::<Seq<char>>::empty().filter(keep) =~= Seq::<Seq<char>>::empty()) by {
            reveal(Seq::filter);
        }
    }
    while j < m
        invariant
            m == parts.len(),
            j <= m,
            ws == seg_views(parts@),
            keep == (|w: Seq<char>| w.len() > 0),
            out@ == join_dash(ws.take(j as int).filter(keep)),
            first == (ws.take(j as int).filter(keep).len() == 0),
        decreases m - j,
    {
        let ghost pre = out@;
        let ghost fpre = ws.take(j as int).filter(keep);
        proof {
            assert(ws.take(j + 1) =~= ws.take(j as int).push(ws[j as int]));
            assert(ws[j as int] == parts@[j as int]@);
        }
        let plen = parts[j].len();
        if plen > 0 {
            if !first {
                push_char_vec(&mut out, '-');
            }
            let mut t: usize = 0;
            while t < parts[j].len()
                invariant
                    j < parts.len(),
                    t <= parts@[j as int]@.len(),
                    out@ == (if first {
                        Seq::<char>::empty()
                    } else {
                        pre + seq!['-']
                    }) + parts@[j as int]@.take(t as int),
                decreases parts@[j as int]@.len() - t,
            {
                let c = parts[j][t];
                out.push(c);
                proof {
                    assert(out@ =~= (if first {
                        Seq::<char>::empty()
                    } else {
                        pre + seq!['-']
                    }) + parts@[j as int]@.take(t + 1));
                }
                t += 1;
            }
            proof {
                assert(parts@[j as int]@.take(parts@[j as int]@.len() as int) =~= parts@[
                j as int]@);
                assert(ws.take(j + 1) =~= ws.take(j as int) + seq![ws[j as int]]);
                Seq::filter_distributes_over_add(ws.take(j as int), seq![ws[j as int]], keep);
                assert(seq![ws[j as int]].filter(keep) =~= seq![ws[j as int]]) by {
                    reveal(Seq::filter);
                    assert(seq![ws[j as int]].drop_last() =~= Seq::<Seq<char>>::empty());
                }
                assert(ws.take(j + 1).filter(keep) =~= fpre.push(ws[j as int]));
                if first {
                    assert(fpre.len() == 0);
                    assert(fpre.push(ws[j as int]).len() == 1);
                    assert(join_dash(fpre.push(ws[j as int])) == ws[j as int]);
                    assert(out@ =~= ws[j as int]);
                } else {
                    assert(fpre.push(ws[j as int]).drop_last() =~= fpre);
                    assert(join_dash(fpre.push(ws[j as int])) == join_dash(fpre) + seq!['-']
                        + ws[j as int]);
                    assert(out@ =~= pre + seq!['-'] + ws[j as int]);
                }
            }
            first = false;
        } else {
            proof {
                assert(ws[j as int].len() == 0);
                assert(ws.take(j + 1) =~= ws.take(j as int) + seq![ws[j as int]]);
                Seq::filter_distributes_over_add(ws.take(j as int), seq![ws[j as int]], keep);
                assert(seq![ws[j as int]].filter(keep) =~= Seq::<Seq<char>>::empty()) by {
                    reveal(Seq::filter);
                    assert(seq![ws[j as int]].drop_last() =~= Seq::<Seq<char>>::empty());
                    assert(seq![ws[j as int]].last() == ws[j as int]);
                    assert(!keep(ws[j as int]));
                    assert(Seq::<Seq<char>>::empty().filter(keep) =~= Seq::<Seq<char>>::empty());
                }
                assert(ws.take(j + 1).filter(keep) =~= fpre);
            }
        }
        j += 1;
    }
    proof {
        assert(ws.take(m as int) =~= ws);
    }
    string_of(&out)
}

/// Push one character onto a character vector.
fn push_char_vec(v: &mut Vec<char>, c: char)
    ensures
        final(v)@ == old(v)@.push(c),
{
    v.push(c);
}

/// What pulldown-cmark renders a markdown text to.
pub uninterp spec fn html_of(s: Seq<char>) -> Seq<char>;

/// Render markdown to HTML with strikethrough, tables, footnotes and task
/// lists enabled.
///
/// Relies on `pulldown_cmark::Parser::new_ext` and
/// `pulldown_cmark::html::push_html`: the rendering is a function of the
/// input characters and the fixed option set alone.
#[verifier::external_body]
pub fn markdown_to_html(markdown: &str) -> (r: String)
    ensures
        r@ == html_of(markdown@),
{
    let mut options = pulldown_cmark::Options::empty();
    options.insert(pulldown_cmark::Options::ENABLE_STRIKETHROUGH);
    options.insert(pulldown_cmark::Options::ENABLE_TABLES);
    options.insert(pulldown_cmark::Options::ENABLE_FOOTNOTES);
    options.insert(pulldown_cmark::Options::ENABLE_TASKLISTS);
    let parser = pulldown_cmark::Parser::new_ext(markdown, options);
    let mut html_output = String::new();
    pulldown_cmark::html::push_html(&mut html_output, parser);
    html_output
}

/// The standard greeting for `name`.
pub fn greet(name: &str) -> (r: String)
    ensures
        r@ == "Hello, "@ + name@ + "!"@,
{
    let mut r = String::new();
    append_str(&mut r, "Hello, ");
    append_str(&mut r, name);
    append_str(&mut r, "!");
    proof {
        assert(r@ =~= "Hello, "@ + name@ + "!"@);
    }
    r
}

} // verus!

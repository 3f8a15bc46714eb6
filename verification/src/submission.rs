//! The server's answer to a submitted solution, read out of its response.

use vstd::prelude::*;
use vstd::string::StrSliceExecFns;
use select::document::Document;
use select::predicate::Name;
use crate::text::push_char;

verus! {

/// The concatenated text of the first `main` element of an HTML page, as
/// select's document model reads it: a function of the page alone.
pub uninterp spec fn main_text_of(h: Seq<char>) -> Seq<char>;

/// Whether an HTML page has a `main` element, as select's document model
/// reads it: a function of the page alone.
pub uninterp spec fn has_main_of(h: Seq<char>) -> bool;

/// Whether `c` is ASCII whitespace.
pub open spec fn is_space_char(c: char) -> bool {
    c == ' ' || c == '\n' || c == '\t' || c == '\r'
}

/// `s` with its trailing ASCII whitespace dropped.
pub open spec fn trim_end_spec(s: Seq<char>) -> Seq<char>
    decreases s.len(),
{
    if s.len() > 0 && is_space_char(s.last()) {
        trim_end_spec(s.drop_last())
    } else {
        s
    }
}

/// Relies on select's `Document::from`, `Document::find` with the `main`
/// name predicate, and `Node::text`: the text of the page's first `main`
/// element, or `None` when the page has none.
#[verifier::external_body]
fn html_main_text(html: &str) -> (r: Option<String>)
    ensures
        r is Some <==> has_main_of(html@),
        r matches Some(s) ==> s@ == main_text_of(html@),
{
    let doc = Document::from(html);
    let node = doc.find(Name("main")).next()?;
    Some(node.text())
}

/// The message text readied for display: trailing ASCII whitespace
/// dropped and a closing period appended.
pub fn finish_submission_text(text: &str) -> (r: String)
    ensures
        r@ == trim_end_spec(text@).push('.'),
{
    let n = text.unicode_len();
    let mut end = n;
    proof {
        assert(text@.take(n as int) =~= text@);
    }
    while end > 0
        invariant
            end <= n,
            n == text@.len(),
            trim_end_spec(text@) == trim_end_spec(text@.take(end as int)),
        ensures
            end <= n,
            trim_end_spec(text@) == text@.take(end as int),
        decreases end,
    {
        let c = text.get_char(end - 1);
        let keep = !(c == ' ' || c == '\n' || c == '\t' || c == '\r');
        if keep {
            proof {
                assert(text@.take(end as int).last() == c);
                assert(trim_end_spec(text@.take(end as int)) == text@.take(end as int));
            }
            break;
        }
        proof {
            assert(text@.take(end as int).drop_last() =~= text@.take(end - 1));
        }
        end = end - 1;
    }
    let mut out = String::new();
    let mut i: usize = 0;
    while i < end
        invariant
            i <= end,
            end <= n,
            n == text@.len(),
            out@ == text@.take(end as int).take(i as int),
        decreases end - i,
    {
        push_char(&mut out, text.get_char(i));
        proof {
            assert(out@ =~= text@.take(end as int).take(i + 1));
        }
        i = i + 1;
    }
    proof {
        assert(out@ =~= text@.take(end as int));
    }
    push_char(&mut out, '.');
    out
}

/// The server's submission message: the text of the response's first
/// `main` element, trailing whitespace dropped, closed with a period; or
/// `None` when the response holds no `main` element.
pub fn submission_message(response: &str) -> (r: Option<String>)
    ensures
        r is Some <==> has_main_of(response@),
        r matches Some(s) ==> s@ == trim_end_spec(main_text_of(response@)).push('.'),
{
    match html_main_text(response) {
        Option::Some(text) => Option::Some(finish_submission_text(text.as_str())),
        Option::None => Option::None,
    }
}

} // verus!

//! Text sanitizer: escapes arbitrary text into a markup-safe speech-synthesis
//! payload and wraps it in a fixed envelope that sets a fast speaking rate and
//! appends a trailing pause.
//!
//! The five markup-significant characters (ampersand, double-quote,
//! single-quote, less-than, greater-than) are each replaced by their entity.
//! The replacement is a single pass over the characters, so an ampersand
//! introduced by one replacement is never re-escaped by another.

use vstd::prelude::*;

verus! {

/// What one character of the input contributes to the escaped output: the
/// entity for a markup-significant character, the character itself otherwise.
pub open spec fn escape_char(c: char) -> Seq<char> {
    if c == '&' {
        seq!['&', 'a', 'm', 'p', ';']
    } else if c == '"' {
        seq!['&', 'q', 'u', 'o', 't', ';']
    } else if c == '\'' {
        seq!['&', 'a', 'p', 'o', 's', ';']
    } else if c == '<' {
        seq!['&', 'l', 't', ';']
    } else if c == '>' {
        seq!['&', 'g', 't', ';']
    } else {
        seq![c]
    }
}

/// The escaped form of a text: each character replaced by its contribution,
/// in order.
pub open spec fn escape(s: Seq<char>) -> Seq<char>
    decreases s.len(),
{
    if s.len() == 0 {
        Seq::empty()
    } else {
        escape_char(s[0]) + escape(s.drop_first())
    }
}

/// Escaping one more character on the right appends that character's
/// contribution and nothing else.
proof fn lemma_escape_push(s: Seq<char>, c: char)
    ensures
        escape(s.push(c)) == escape(s) + escape_char(c),
    decreases s.len(),
{
    if s.len() == 0 {
        let e = s.push(c);
        assert(e.len() == 1);
        assert(e[0] == c);
        assert(e.drop_first() =~= Seq::<char>::empty());
        assert(escape(e.drop_first()) == Seq::<char>::empty());
        assert(escape(e) == escape_char(c) + escape(e.drop_first()));
        assert(escape(e) =~= escape_char(c));
        assert(escape(s) == Seq::<char>::empty());
        assert(escape(s) + escape_char(c) =~= escape_char(c));
    } else {
        assert(s.push(c).drop_first() =~= s.drop_first().push(c));
        lemma_escape_push(s.drop_first(), c);
        assert(escape(s.push(c)) =~= escape(s) + escape_char(c));
    }
}

/// Relies on String::push: appends the given character to the end of the
/// string.
#[verifier::external_body]
fn push_char(s: &mut String, c: char)
    ensures
        final(s)@ == old(s)@.push(c),
{
    s.push(c);
}

/// Escapes every markup-significant character of the text into its entity, in
/// one pass over the characters.
pub fn escape_text(text: &str) -> (r: String)
    ensures
        r@ == escape(text@),
{
    let n: usize = text.unicode_len();
    let mut out: String = "".to_owned();
    proof {
        reveal_strlit("");
        assert(out@ =~= escape(text@.subrange(0, 0)));
    }
    let mut i: usize = 0;
    while i < n
        invariant
            n == text@.len(),
            i <= n,
            out@ == escape(text@.subrange(0, i as int)),
        decreases n - i,
    {
        let c = text.get_char(i);
        if c == '&' {
            proof {
                reveal_strlit("&amp;");
                assert("&amp;"@ =~= escape_char(c));
            }
            out.append("&amp;");
        } else if c == '"' {
            proof {
                reveal_strlit("&quot;");
                assert("&quot;"@ =~= escape_char(c));
            }
            out.append("&quot;");
        } else if c == '\'' {
            proof {
                reveal_strlit("&apos;");
                assert("&apos;"@ =~= escape_char(c));
            }
            out.append("&apos;");
        } else if c == '<' {
            proof {
                reveal_strlit("&lt;");
                assert("&lt;"@ =~= escape_char(c));
            }
            out.append("&lt;");
        } else if c == '>' {
            proof {
                reveal_strlit("&gt;");
                assert("&gt;"@ =~= escape_char(c));
            }
            out.append("&gt;");
        } else {
            push_char(&mut out, c);
            proof {
                assert(seq![c] =~= escape_char(c));
                assert(out@ =~= escape(text@.subrange(0, i as int)) + escape_char(c));
            }
        }
        proof {
            lemma_escape_push(text@.subrange(0, i as int), text@[i as int]);
            assert(text@.subrange(0, i + 1 as int) =~= text@.subrange(0, i as int).push(
                text@[i as int],
            ));
        }
        i = i + 1;
    }
    proof {
        assert(text@.subrange(0, n as int) =~= text@);
    }
    out
}

/// The fixed markup that precedes the escaped text in every payload.
pub open spec fn envelope_open() -> Seq<char> {
    "<speak><prosody rate=\"x-fast\">"@
}

/// The fixed markup that follows the escaped text: a trailing pause and the
/// closing tags.
pub open spec fn envelope_close() -> Seq<char> {
    "<break/></prosody></speak>"@
}

/// The full synthesis payload for a text: the escaped text inside the fixed
/// envelope.
pub open spec fn processed(text: Seq<char>) -> Seq<char> {
    envelope_open() + escape(text) + envelope_close()
}

/// Builds the synthesis request payload for one inbox item: the text with
/// every markup-significant character escaped, wrapped in the fixed
/// fast-rate, trailing-pause envelope.
pub fn process_text(text: &str) -> (r: String)
    ensures
        r@ == processed(text@),
{
    let mut out: String = "<speak><prosody rate=\"x-fast\">".to_owned();
    let escaped = escape_text(text);
    out.append(escaped.as_str());
    out.append("<break/></prosody></speak>");
    out
}

} // verus!

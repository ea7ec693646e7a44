use vstd::prelude::*;
use vstd::string::StrSliceExecFns;
use vstd::string::StringExecFns;
use crate::chars::push_char;
use crate::post::{post_wf, Post, PostM};
use crate::ts::{epoch_of, lemma_epoch_in_range};
use crate::tz::{display_zone, format_in_zone, formatted_in_zone, UserTz};

verus! {

/// What comrak renders the Markdown source to.
pub uninterp spec fn html_of_markdown(s: Seq<char>) -> Seq<char>;

/// Relies on comrak::markdown_to_html with default options: the common
/// Markdown subset, no extensions, a function of the source text alone.
#[verifier::external_body]
fn md_to_html(s: &str) -> (r: String)
    ensures
        r@ == html_of_markdown(s@),
{
    comrak::markdown_to_html(s, &comrak::Options::default())
}

/// How one character is written inside escaped HTML text.
pub open spec fn html_esc_char(c: char) -> Seq<char> {
    if c == '&' {
        seq!['&', 'a', 'm', 'p', ';']
    } else if c == '<' {
        seq!['&', 'l', 't', ';']
    } else if c == '>' {
        seq!['&', 'g', 't', ';']
    } else if c == '"' {
        seq!['&', 'q', 'u', 'o', 't', ';']
    } else {
        seq![c]
    }
}

pub open spec fn html_escaped(s: Seq<char>) -> Seq<char>
    decreases s.len(),
{
    if s.len() == 0 {
        Seq::empty()
    } else {
        html_esc_char(s[0]) + html_escaped(s.drop_first())
    }
}

proof fn lemma_html_esc_push(a: Seq<char>, c: char)
    ensures
        html_escaped(a.push(c)) == html_escaped(a) + html_esc_char(c),
    decreases a.len(),
{
    if a.len() == 0 {
        assert(a.push(c).drop_first() =~= Seq::<char>::empty());
        assert(a.push(c)[0] == c);
        assert(html_escaped(a) == Seq::<char>::empty());
        assert(html_escaped(a.push(c).drop_first()) == Seq::<char>::empty());
        assert(html_escaped(a.push(c)) =~= html_escaped(a) + html_esc_char(c));
    } else {
        assert(a.push(c).drop_first() =~= a.drop_first().push(c));
        lemma_html_esc_push(a.drop_first(), c);
        assert(html_escaped(a.push(c)) =~= html_escaped(a) + html_esc_char(c));
    }
}

/// Escapes text for insertion into HTML element content or a quoted
/// attribute value.
pub fn html_escape(s: &str) -> (r: String)
    ensures
        r@ == html_escaped(s@),
{
    let n: usize = s.unicode_len();
    let mut out = String::new();
    let mut i: usize = 0;
    proof {
        assert(s@.subrange(0, 0) =~= Seq::<char>::empty());
        assert(out@ =~= html_escaped(s@.subrange(0, 0)));
    }
    while i < n
        invariant
            i <= n,
            n == s@.len(),
            out@ == html_escaped(s@.subrange(0, i as int)),
        decreases n - i,
    {
        let c = s.get_char(i);
        if c == '&' {
            out.append("&amp;");
            proof {
                reveal_strlit("&amp;");
            }
        } else if c == '<' {
            out.append("&lt;");
            proof {
                reveal_strlit("&lt;");
            }
        } else if c == '>' {
            out.append("&gt;");
            proof {
                reveal_strlit("&gt;");
            }
        } else if c == '"' {
            out.append("&quot;");
            proof {
                reveal_strlit("&quot;");
            }
        } else {
            push_char(&mut out, c);
        }
        proof {
            lemma_html_esc_push(s@.subrange(0, i as int), s@[i as int]);
            assert(s@.subrange(0, i + 1) =~= s@.subrange(0, i as int).push(s@[i as int]));
            assert(out@ =~= html_escaped(s@.subrange(0, i + 1)));
        }
        i = i + 1;
    }
    proof {
        assert(s@.subrange(0, n as int) =~= s@);
    }
    out
}

/// The fragment for one full post: escaped title and timestamp, the body
/// rendered from Markdown and inserted as-is (authors are trusted).
pub open spec fn post_fragment(p: PostM, zone: Seq<char>) -> Seq<char> {
    "<div class=\"post\"><h1>"@ + html_escaped(p.title) + "</h1><p class=\"text-muted\">"@
        + html_escaped(formatted_in_zone(epoch_of(p.ts) as i64, zone))
        + "</p><div class=\"post-content\">"@ + html_of_markdown(p.body) + "</div></div>"@
}

/// Renders one post for the viewer's zone.
pub fn render_post_html(p: &Post, tz: &UserTz) -> (r: String)
    requires
        post_wf(p@),
    ensures
        r@ == post_fragment(p@, display_zone(tz.0@)),
{
    proof {
        lemma_epoch_in_range(p@.ts);
    }
    let mut out = String::new();
    out.append("<div class=\"post\"><h1>");
    let et = html_escape(p.title.as_str());
    out.append(et.as_str());
    out.append("</h1><p class=\"text-muted\">");
    let ftime = format_in_zone(p.publish_at.epoch_seconds(), tz.0.as_str());
    let eft = html_escape(ftime.as_str());
    out.append(eft.as_str());
    out.append("</p><div class=\"post-content\">");
    let bh = md_to_html(p.body.as_str());
    out.append(bh.as_str());
    out.append("</div></div>");
    proof {
        assert(out@ =~= post_fragment(p@, display_zone(tz.0@)));
    }
    out
}

} // verus!

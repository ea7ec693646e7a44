use vstd::prelude::*;
use vstd::string::StrSliceExecFns;
use vstd::string::StringExecFns;
use crate::chars::{chars_to_string, str_to_chars};
use crate::json::{skip_value, skip_value_exec, skip_ws, str_body, str_body_exec, ws_end};
use crate::ts::{format_ts, parse_ts, parse_ts_chars, ts_str, ts_wf, Timestamp};
use crate::paths::{contains_dotdot, has_dotdot};
use crate::json::{esc_str, push_escaped};
use crate::PostError;

verus! {

/// What one stored record holds, as mathematical values.
pub ghost struct PostM {
    pub title: Seq<char>,
    pub body: Seq<char>,
    pub image_url: Seq<char>,
    pub summary: Seq<char>,
    pub ts: Timestamp,
    pub tags: Seq<Seq<char>>,
    pub slug: Seq<char>,
}

/// One blog entry.  `slug` is derived from the storage location at load
/// time and is never part of the stored payload.
#[derive(Debug, Clone)]
pub struct Post {
    pub title: String,
    pub body: String,
    pub image_url: String,
    pub summary: String,
    pub publish_at: Timestamp,
    pub tags: Vec<String>,
    pub slug: String,
}

pub open spec fn strs_view(v: Seq<String>) -> Seq<Seq<char>> {
    v.map_values(|t: String| t@)
}

impl View for Post {
    type V = PostM;

    open spec fn view(&self) -> PostM {
        PostM {
            title: self.title@,
            body: self.body@,
            image_url: self.image_url@,
            summary: self.summary@,
            ts: self.publish_at,
            tags: strs_view(self.tags@),
            slug: self.slug@,
        }
    }
}

pub open spec fn post_wf(p: PostM) -> bool {
    &&& ts_wf(p.ts)
    &&& p.title.len() > 0
}

pub open spec fn k_title() -> Seq<char> {
    seq!['t', 'i', 't', 'l', 'e']
}

pub open spec fn k_body() -> Seq<char> {
    seq!['b', 'o', 'd', 'y']
}

pub open spec fn k_image() -> Seq<char> {
    seq!['i', 'm', 'a', 'g', 'e', '_', 'u', 'r', 'l']
}

pub open spec fn k_summary() -> Seq<char> {
    seq!['s', 'u', 'm', 'm', 'a', 'r', 'y']
}

pub open spec fn k_ts() -> Seq<char> {
    seq!['t', 'i', 'm', 'e', 's', 't', 'a', 'm', 'p']
}

pub open spec fn k_tags() -> Seq<char> {
    seq!['t', 'a', 'g', 's']
}

/// The fields gathered while walking the members of a record.
pub ghost struct PartialM {
    pub title: Option<Seq<char>>,
    pub body: Option<Seq<char>>,
    pub image_url: Option<Seq<char>>,
    pub summary: Option<Seq<char>>,
    pub ts: Option<Timestamp>,
    pub tags: Option<Seq<Seq<char>>>,
}

pub open spec fn empty_partial() -> PartialM {
    PartialM { title: None, body: None, image_url: None, summary: None, ts: None, tags: None }
}

/// A quoted string standing at position `v`.
pub open spec fn string_at(s: Seq<char>, v: int) -> Option<(Seq<char>, int)> {
    if 0 <= v < s.len() && s[v] == '"' {
        str_body(s, v + 1)
    } else {
        None
    }
}

/// The items of the tag array, the opening bracket and leading space
/// already consumed.
pub open spec fn tag_items(s: Seq<char>, i: int, acc: Seq<Seq<char>>, fuel: nat) -> Option<
    (Seq<Seq<char>>, int),
>
    decreases fuel,
{
    if fuel == 0 {
        None
    } else if i < 0 || i >= s.len() {
        None
    } else if s[i] == ']' {
        Some((acc, i + 1))
    } else if s[i] == '"' {
        match str_body(s, i + 1) {
            Some(p) => {
                let k = ws_end(s, p.1);
                if k < s.len() && s[k] == ',' {
                    tag_items(s, ws_end(s, k + 1), acc.push(p.0), (fuel - 1) as nat)
                } else if k < s.len() && s[k] == ']' {
                    Some((acc.push(p.0), k + 1))
                } else {
                    None
                }
            },
            None => None,
        }
    } else {
        None
    }
}

/// One member value at position `v`, dispatched on the member's key.  A key
/// this format does not know is skipped, which covers a stored `url_name`
/// or `slug`: the payload's own idea of a slug is ignored.
pub open spec fn member_value(
    s: Seq<char>,
    v: int,
    key: Seq<char>,
    acc: PartialM,
    fuel: nat,
) -> Option<(PartialM, int)>
    decreases fuel,
{
    if fuel == 0 {
        None
    } else if key == k_title() {
        match string_at(s, v) {
            Some(p) => Some(
                (
                    PartialM {
                        title: Some(p.0),
                        body: acc.body,
                        image_url: acc.image_url,
                        summary: acc.summary,
                        ts: acc.ts,
                        tags: acc.tags,
                    },
                    p.1,
                ),
            ),
            None => None,
        }
    } else if key == k_body() {
        match string_at(s, v) {
            Some(p) => Some(
                (
                    PartialM {
                        title: acc.title,
                        body: Some(p.0),
                        image_url: acc.image_url,
                        summary: acc.summary,
                        ts: acc.ts,
                        tags: acc.tags,
                    },
                    p.1,
                ),
            ),
            None => None,
        }
    } else if key == k_image() {
        match string_at(s, v) {
            Some(p) => Some(
                (
                    PartialM {
                        title: acc.title,
                        body: acc.body,
                        image_url: Some(p.0),
                        summary: acc.summary,
                        ts: acc.ts,
                        tags: acc.tags,
                    },
                    p.1,
                ),
            ),
            None => None,
        }
    } else if key == k_summary() {
        match string_at(s, v) {
            Some(p) => Some(
                (
                    PartialM {
                        title: acc.title,
                        body: acc.body,
                        image_url: acc.image_url,
                        summary: Some(p.0),
                        ts: acc.ts,
                        tags: acc.tags,
                    },
                    p.1,
                ),
            ),
            None => None,
        }
    } else if key == k_ts() {
        match string_at(s, v) {
            Some(p) => match parse_ts(p.0) {
                Some(t) => Some(
                    (
                        PartialM {
                            title: acc.title,
                            body: acc.body,
                            image_url: acc.image_url,
                            summary: acc.summary,
                            ts: Some(t),
                            tags: acc.tags,
                        },
                        p.1,
                    ),
                ),
                None => None,
            },
            None => None,
        }
    } else if key == k_tags() {
        if 0 <= v < s.len() && s[v] == '[' {
            match tag_items(s, ws_end(s, v + 1), Seq::empty(), (fuel - 1) as nat) {
                Some(p) => Some(
                    (
                        PartialM {
                            title: acc.title,
                            body: acc.body,
                            image_url: acc.image_url,
                            summary: acc.summary,
                            ts: acc.ts,
                            tags: Some(p.0),
                        },
                        p.1,
                    ),
                ),
                None => None,
            }
        } else {
            None
        }
    } else {
        match skip_value(s, v, (fuel - 1) as nat) {
            Some(j) => Some((acc, j)),
            None => None,
        }
    }
}

/// The member list of the record, starting at a key's opening quote.
pub open spec fn members(s: Seq<char>, i: int, acc: PartialM, fuel: nat) -> Option<(PartialM, int)>
    decreases fuel,
{
    if fuel == 0 {
        None
    } else if i < 0 || i >= s.len() || s[i] != '"' {
        None
    } else {
        match str_body(s, i + 1) {
            Some(kp) => {
                let k = ws_end(s, kp.1);
                if k < s.len() && s[k] == ':' {
                    let v = ws_end(s, k + 1);
                    match member_value(s, v, kp.0, acc, (fuel - 1) as nat) {
                        Some(vp) => {
                            let e = ws_end(s, vp.1);
                            if e < s.len() && s[e] == ',' {
                                members(s, ws_end(s, e + 1), vp.0, (fuel - 1) as nat)
                            } else if e < s.len() && s[e] == '}' {
                                Some((vp.0, e + 1))
                            } else {
                                None
                            }
                        },
                        None => None,
                    }
                } else {
                    None
                }
            },
            None => None,
        }
    }
}

/// A record is complete when every field the format requires was seen and
/// the title is not empty.
pub open spec fn complete(a: PartialM) -> Option<PostM> {
    if a.title is Some && a.body is Some && a.image_url is Some && a.summary is Some && a.ts
        is Some && a.tags is Some {
        if (a.title->0).len() > 0 {
            Some(
                PostM {
                    title: a.title->0,
                    body: a.body->0,
                    image_url: a.image_url->0,
                    summary: a.summary->0,
                    ts: a.ts->0,
                    tags: a.tags->0,
                    slug: Seq::empty(),
                },
            )
        } else {
            None
        }
    } else {
        None
    }
}

pub open spec fn parse_fuel(s: Seq<char>) -> nat {
    (2 * s.len() + 4) as nat
}

/// What a stored record text means; `None` where it is malformed.  The
/// record's `slug` is left empty: it belongs to the storage location, not
/// to the payload.
pub open spec fn parse_post_text(s: Seq<char>) -> Option<PostM> {
    if s.len() > usize::MAX as int / 4 {
        None
    } else {
        let i = ws_end(s, 0);
        if i >= s.len() || s[i] != '{' {
            None
        } else {
            let j = ws_end(s, i + 1);
            match members(s, j, empty_partial(), parse_fuel(s)) {
                Some(p) => {
                    if ws_end(s, p.1) == s.len() {
                        complete(p.0)
                    } else {
                        None
                    }
                },
                None => None,
            }
        }
    }
}

/// A parsed record is well formed.
pub proof fn lemma_parse_post_wf(s: Seq<char>)
    requires
        parse_post_text(s) is Some,
    ensures
        post_wf(parse_post_text(s)->0),
        (parse_post_text(s)->0).slug == Seq::<char>::empty(),
{
    let i = ws_end(s, 0);
    let j = ws_end(s, i + 1);
    let p = members(s, j, empty_partial(), parse_fuel(s))->0;
    lemma_members_ts_wf(s, j, empty_partial(), parse_fuel(s));
}

/// Every timestamp a member walk stores was checked by `parse_ts`.
proof fn lemma_members_ts_wf(s: Seq<char>, i: int, acc: PartialM, fuel: nat)
    requires
        members(s, i, acc, fuel) is Some,
        acc.ts matches Some(t) ==> ts_wf(t),
    ensures
        (members(s, i, acc, fuel)->0).0.ts matches Some(t) ==> ts_wf(t),
    decreases fuel,
{
    let kp = str_body(s, i + 1)->0;
    let k = ws_end(s, kp.1);
    let v = ws_end(s, k + 1);
    let vp = member_value(s, v, kp.0, acc, (fuel - 1) as nat)->0;
    lemma_member_value_ts_wf(s, v, kp.0, acc, (fuel - 1) as nat);
    let e = ws_end(s, vp.1);
    if e < s.len() && s[e] == ',' {
        lemma_members_ts_wf(s, ws_end(s, e + 1), vp.0, (fuel - 1) as nat);
    }
}

proof fn lemma_member_value_ts_wf(s: Seq<char>, v: int, key: Seq<char>, acc: PartialM, fuel: nat)
    requires
        member_value(s, v, key, acc, fuel) is Some,
        acc.ts matches Some(t) ==> ts_wf(t),
    ensures
        (member_value(s, v, key, acc, fuel)->0).0.ts matches Some(t) ==> ts_wf(t),
{
    if key == k_ts() {
        let p = string_at(s, v)->0;
        crate::ts::lemma_parse_ts_wf(p.0);
    }
}

// ---------------------------------------------------------------------------
// Executable record parsing
// ---------------------------------------------------------------------------

struct PartialPost {
    title: Option<String>,
    body: Option<String>,
    image_url: Option<String>,
    summary: Option<String>,
    ts: Option<Timestamp>,
    tags: Option<Vec<String>>,
}

spec fn pview(p: PartialPost) -> PartialM {
    PartialM {
        title: match p.title {
            Some(t) => Some(t@),
            None => None,
        },
        body: match p.body {
            Some(t) => Some(t@),
            None => None,
        },
        image_url: match p.image_url {
            Some(t) => Some(t@),
            None => None,
        },
        summary: match p.summary {
            Some(t) => Some(t@),
            None => None,
        },
        ts: p.ts,
        tags: match p.tags {
            Some(v) => Some(strs_view(v@)),
            None => None,
        },
    }
}

fn string_value_exec(cs: &Vec<char>, v: usize) -> (r: Option<(String, usize)>)
    requires
        v <= cs@.len(),
    ensures
        match r {
            Some(p) => string_at(cs@, v as int) == Some((p.0@, p.1 as int)) && p.1 <= cs@.len(),
            None => string_at(cs@, v as int) is None,
        },
{
    let n: usize = cs.len();
    if v < n && cs[v] == '"' {
        match str_body_exec(cs, v + 1) {
            Some(p) => Some((chars_to_string(&p.0), p.1)),
            None => None,
        }
    } else {
        None
    }
}

fn tag_items_exec(cs: &Vec<char>, i0: usize, fuel0: usize) -> (r: Option<(Vec<String>, usize)>)
    requires
        i0 <= cs@.len(),
    ensures
        match r {
            Some(p) => tag_items(cs@, i0 as int, Seq::empty(), fuel0 as nat) == Some(
                (strs_view(p.0@), p.1 as int),
            ) && p.1 <= cs@.len(),
            None => tag_items(cs@, i0 as int, Seq::empty(), fuel0 as nat) is None,
        },
{
    let n: usize = cs.len();
    let mut i: usize = i0;
    let mut fuel: usize = fuel0;
    let mut acc: Vec<String> = Vec::new();
    proof {
        assert(strs_view(acc@) =~= Seq::<Seq<char>>::empty());
    }
    loop
        invariant
            i <= n,
            n == cs@.len(),
            tag_items(cs@, i0 as int, Seq::empty(), fuel0 as nat) == tag_items(
                cs@,
                i as int,
                strs_view(acc@),
                fuel as nat,
            ),
        decreases fuel,
    {
        if fuel == 0 || i >= n {
            return None;
        }
        let c = cs[i];
        if c == ']' {
            return Some((acc, i + 1));
        }
        if c != '"' {
            return None;
        }
        match str_body_exec(cs, i + 1) {
            Some(p) => {
                let k = skip_ws(cs, p.1);
                let tag = chars_to_string(&p.0);
                if k < n && cs[k] == ',' {
                    let ghost prev = strs_view(acc@);
                    acc.push(tag);
                    proof {
                        assert(strs_view(acc@) =~= prev.push(p.0@));
                    }
                    i = skip_ws(cs, k + 1);
                    fuel = fuel - 1;
                } else if k < n && cs[k] == ']' {
                    let ghost prev = strs_view(acc@);
                    acc.push(tag);
                    proof {
                        assert(strs_view(acc@) =~= prev.push(p.0@));
                    }
                    return Some((acc, k + 1));
                } else {
                    return None;
                }
            },
            None => {
                return None;
            },
        }
    }
}

fn member_value_exec(cs: &Vec<char>, v: usize, key: &Vec<char>, acc: PartialPost, fuel: usize) -> (r:
    Option<(PartialPost, usize)>)
    requires
        v <= cs@.len(),
    ensures
        match r {
            Some(p) => member_value(cs@, v as int, key@, pview(acc), fuel as nat) == Some(
                (pview(p.0), p.1 as int),
            ) && p.1 <= cs@.len(),
            None => member_value(cs@, v as int, key@, pview(acc), fuel as nat) is None,
        },
{
    if fuel == 0 {
        return None;
    }
    let n: usize = cs.len();
    let ks = chars_to_string(key);
    proof {
        reveal_strlit("title");
        reveal_strlit("body");
        reveal_strlit("image_url");
        reveal_strlit("summary");
        reveal_strlit("timestamp");
        reveal_strlit("tags");
        assert("title"@ =~= k_title());
        assert("body"@ =~= k_body());
        assert("image_url"@ =~= k_image());
        assert("summary"@ =~= k_summary());
        assert("timestamp"@ =~= k_ts());
        assert("tags"@ =~= k_tags());
    }
    if ks == String::from_str("title") {
        match string_value_exec(cs, v) {
            Some(p) => Some(
                (
                    PartialPost {
                        title: Some(p.0),
                        body: acc.body,
                        image_url: acc.image_url,
                        summary: acc.summary,
                        ts: acc.ts,
                        tags: acc.tags,
                    },
                    p.1,
                ),
            ),
            None => None,
        }
    } else if ks == String::from_str("body") {
        match string_value_exec(cs, v) {
            Some(p) => Some(
                (
                    PartialPost {
                        title: acc.title,
                        body: Some(p.0),
                        image_url: acc.image_url,
                        summary: acc.summary,
                        ts: acc.ts,
                        tags: acc.tags,
                    },
                    p.1,
                ),
            ),
            None => None,
        }
    } else if ks == String::from_str("image_url") {
        match string_value_exec(cs, v) {
            Some(p) => Some(
                (
                    PartialPost {
                        title: acc.title,
                        body: acc.body,
                        image_url: Some(p.0),
                        summary: acc.summary,
                        ts: acc.ts,
                        tags: acc.tags,
                    },
                    p.1,
                ),
            ),
            None => None,
        }
    } else if ks == String::from_str("summary") {
        match string_value_exec(cs, v) {
            Some(p) => Some(
                (
                    PartialPost {
                        title: acc.title,
                        body: acc.body,
                        image_url: acc.image_url,
                        summary: Some(p.0),
                        ts: acc.ts,
                        tags: acc.tags,
                    },
                    p.1,
                ),
            ),
            None => None,
        }
    } else if ks == String::from_str("timestamp") {
        if v < n && cs[v] == '"' {
            match str_body_exec(cs, v + 1) {
                Some(p) => match parse_ts_chars(&p.0) {
                    Some(t) => Some(
                        (
                            PartialPost {
                                title: acc.title,
                                body: acc.body,
                                image_url: acc.image_url,
                                summary: acc.summary,
                                ts: Some(t),
                                tags: acc.tags,
                            },
                            p.1,
                        ),
                    ),
                    None => None,
                },
                None => None,
            }
        } else {
            None
        }
    } else if ks == String::from_str("tags") {
        if v < n && cs[v] == '[' {
            match tag_items_exec(cs, skip_ws(cs, v + 1), fuel - 1) {
                Some(p) => Some(
                    (
                        PartialPost {
                            title: acc.title,
                            body: acc.body,
                            image_url: acc.image_url,
                            summary: acc.summary,
                            ts: acc.ts,
                            tags: Some(p.0),
                        },
                        p.1,
                    ),
                ),
                None => None,
            }
        } else {
            None
        }
    } else {
        match skip_value_exec(cs, v, fuel - 1) {
            Some(j) => Some((acc, j)),
            None => None,
        }
    }
}

fn members_exec(cs: &Vec<char>, i0: usize, fuel0: usize) -> (r: Option<(PartialPost, usize)>)
    requires
        i0 <= cs@.len(),
    ensures
        match r {
            Some(p) => members(cs@, i0 as int, empty_partial(), fuel0 as nat) == Some(
                (pview(p.0), p.1 as int),
            ) && p.1 <= cs@.len(),
            None => members(cs@, i0 as int, empty_partial(), fuel0 as nat) is None,
        },
{
    let n: usize = cs.len();
    let mut i: usize = i0;
    let mut fuel: usize = fuel0;
    let mut acc = PartialPost {
        title: None,
        body: None,
        image_url: None,
        summary: None,
        ts: None,
        tags: None,
    };
    proof {
        assert(pview(acc) == empty_partial());
    }
    loop
        invariant
            i <= n,
            n == cs@.len(),
            members(cs@, i0 as int, empty_partial(), fuel0 as nat) == members(
                cs@,
                i as int,
                pview(acc),
                fuel as nat,
            ),
        decreases fuel,
    {
        if fuel == 0 {
            return None;
        }
        if i >= n {
            return None;
        }
        if cs[i] != '"' {
            return None;
        }
        match str_body_exec(cs, i + 1) {
            Some(kp) => {
                let k = skip_ws(cs, kp.1);
                if !(k < n && cs[k] == ':') {
                    return None;
                }
                let v = skip_ws(cs, k + 1);
                match member_value_exec(cs, v, &kp.0, acc, fuel - 1) {
                    Some(vp) => {
                        let e = skip_ws(cs, vp.1);
                        if e < n && cs[e] == ',' {
                            acc = vp.0;
                            i = skip_ws(cs, e + 1);
                            fuel = fuel - 1;
                        } else if e < n && cs[e] == '}' {
                            return Some((vp.0, e + 1));
                        } else {
                            return None;
                        }
                    },
                    None => {
                        return None;
                    },
                }
            },
            None => {
                return None;
            },
        }
    }
}

/// Reads one stored record payload.  `None` exactly where the text is
/// malformed for this format; the returned record carries an empty slug.
pub fn parse_post_payload(s: &str) -> (r: Option<Post>)
    ensures
        match r {
            Some(p) => parse_post_text(s@) == Some(p@) && post_wf(p@) && p@.slug
                == Seq::<char>::empty(),
            None => parse_post_text(s@) is None,
        },
{
    let cs = str_to_chars(s);
    let n: usize = cs.len();
    if n > usize::MAX / 4 {
        return None;
    }
    let i = skip_ws(&cs, 0);
    if !(i < n && cs[i] == '{') {
        return None;
    }
    let j = skip_ws(&cs, i + 1);
    let fuel: usize = 2 * n + 4;
    match members_exec(&cs, j, fuel) {
        Some(p) => {
            let t = skip_ws(&cs, p.1);
            if t != n {
                return None;
            }
            let acc = p.0;
            match (acc.title, acc.body, acc.image_url, acc.summary, acc.ts, acc.tags) {
                (Some(title), Some(body), Some(image_url), Some(summary), Some(ts), Some(tags)) => {
                    if title.as_str().is_empty() {
                        return None;
                    }
                    let post = Post {
                        title,
                        body,
                        image_url,
                        summary,
                        publish_at: ts,
                        tags,
                        slug: String::new(),
                    };
                    proof {
                        assert(parse_post_text(s@) == Some(post@));
                        lemma_parse_post_wf(s@);
                    }
                    Some(post)
                },
                _ => None,
            }
        },
        None => None,
    }
}

// ---------------------------------------------------------------------------
// Loading a record from its storage location
// ---------------------------------------------------------------------------

/// What reading a post file produced, handed in by the caller that did
/// the read.
pub enum FileRead {
    Content(String),
    Missing,
    Failed,
}

/// The identifier minus a trailing `.json` extension.
pub open spec fn slug_of(name: Seq<char>) -> Seq<char> {
    if name.len() >= 5 && name.subrange(name.len() - 5, name.len() as int) == seq![
        '.',
        'j',
        's',
        'o',
        'n',
    ] {
        name.subrange(0, name.len() - 5)
    } else {
        name
    }
}

pub fn stem(name: &str) -> (r: String)
    ensures
        r@ == slug_of(name@),
{
    let n: usize = name.unicode_len();
    if n >= 5 && name.get_char(n - 5) == '.' && name.get_char(n - 4) == 'j' && name.get_char(n - 3)
        == 's' && name.get_char(n - 2) == 'o' && name.get_char(n - 1) == 'n' {
        proof {
            assert(name@.subrange(n - 5, n as int) =~= seq!['.', 'j', 's', 'o', 'n']);
        }
        let sub = name.substring_char(0, n - 5);
        sub.to_owned()
    } else {
        proof {
            if n >= 5 {
                let tail = name@.subrange(n - 5, n as int);
                if tail == seq!['.', 'j', 's', 'o', 'n'] {
                    assert(name@[n - 5] == tail[0]);
                    assert(name@[n - 4] == tail[1]);
                    assert(name@[n - 3] == tail[2]);
                    assert(name@[n - 2] == tail[3]);
                    assert(name@[n - 1] == tail[4]);
                }
            }
        }
        name.to_owned()
    }
}

pub open spec fn with_slug(m: PostM, sl: Seq<char>) -> PostM {
    PostM {
        title: m.title,
        body: m.body,
        image_url: m.image_url,
        summary: m.summary,
        ts: m.ts,
        tags: m.tags,
        slug: sl,
    }
}

pub open spec fn content_view(read: FileRead) -> Seq<char> {
    match read {
        FileRead::Content(c) => c@,
        _ => Seq::empty(),
    }
}

/// Resolves one identifier and its read outcome into a record.  An
/// identifier holding the parent-directory marker is refused outright;
/// the slug always comes from the identifier, never from the payload.
pub fn load_post(file_name: &str, read: &FileRead) -> (r: Result<Post, PostError>)
    ensures
        has_dotdot(file_name@) ==> r == Err::<Post, PostError>(PostError::NotFound),
        !has_dotdot(file_name@) ==> match *read {
            FileRead::Missing => r == Err::<Post, PostError>(PostError::NotFound),
            FileRead::Failed => r == Err::<Post, PostError>(PostError::UpstreamIo),
            FileRead::Content(_) => match parse_post_text(content_view(*read)) {
                Some(m) => r matches Ok(p) && p@ == with_slug(m, slug_of(file_name@)) && post_wf(
                    p@,
                ),
                None => r == Err::<Post, PostError>(PostError::MalformedContent),
            },
        },
{
    if contains_dotdot(file_name) {
        return Err(PostError::NotFound);
    }
    match read {
        FileRead::Missing => Err(PostError::NotFound),
        FileRead::Failed => Err(PostError::UpstreamIo),
        FileRead::Content(c) => match parse_post_payload(c.as_str()) {
            Some(mut p) => {
                p.slug = stem(file_name);
                Ok(p)
            },
            None => Err(PostError::MalformedContent),
        },
    }
}

/// What one listed entry contributes to a bulk load.
pub open spec fn spec_load(name: Seq<char>, read: FileRead) -> Option<PostM> {
    if has_dotdot(name) {
        None
    } else {
        match read {
            FileRead::Content(c) => match parse_post_text(c@) {
                Some(m) => Some(with_slug(m, slug_of(name))),
                None => None,
            },
            _ => None,
        }
    }
}

/// An identifier holding the parent-directory marker never yields a
/// record, whatever was read.
pub proof fn lemma_traversal_never_loads(name: Seq<char>, read: FileRead)
    requires
        has_dotdot(name),
    ensures
        spec_load(name, read) is None,
{
}

pub open spec fn loaded_models(items: Seq<(String, FileRead)>) -> Seq<PostM>
    decreases items.len(),
{
    if items.len() == 0 {
        Seq::empty()
    } else {
        loaded_models(items.drop_last()) + match spec_load(items.last().0@, items.last().1) {
            Some(m) => seq![m],
            None => Seq::<PostM>::empty(),
        }
    }
}

/// Loads every listed entry, keeping the records that load and passing
/// over the rest, in the listed order: one bad file never spoils the
/// whole listing.
pub fn load_posts(items: &Vec<(String, FileRead)>) -> (r: Vec<Post>)
    ensures
        r@.map_values(|p: Post| p@) == loaded_models(items@),
        forall|k: int| 0 <= k < r@.len() ==> post_wf(#[trigger] r@[k]@),
{
    let mut out: Vec<Post> = Vec::new();
    let mut i: usize = 0;
    proof {
        assert(items@.subrange(0, 0) =~= Seq::<(String, FileRead)>::empty());
        assert(out@.map_values(|p: Post| p@) =~= loaded_models(items@.subrange(0, 0)));
    }
    while i < items.len()
        invariant
            i <= items@.len(),
            out@.map_values(|p: Post| p@) == loaded_models(items@.subrange(0, i as int)),
            forall|k: int| 0 <= k < out@.len() ==> post_wf(#[trigger] out@[k]@),
        decreases items@.len() - i,
    {
        let ghost prefix = items@.subrange(0, i as int);
        let item = &items[i];
        let ghost prev = out@.map_values(|p: Post| p@);
        match load_post(item.0.as_str(), &item.1) {
            Ok(p) => {
                out.push(p);
                proof {
                    assert(out@.map_values(|p: Post| p@) =~= prev.push(out@.last()@));
                }
            },
            Err(_) => {
            },
        }
        proof {
            let ext = items@.subrange(0, i + 1);
            assert(ext.drop_last() =~= prefix);
            assert(ext.last() == items@[i as int]);
            assert(out@.map_values(|p: Post| p@) =~= loaded_models(ext));
        }
        i = i + 1;
    }
    proof {
        assert(items@.subrange(0, items@.len() as int) =~= items@);
    }
    out
}

// ---------------------------------------------------------------------------
// Writing a record back out
// ---------------------------------------------------------------------------

/// A quoted, escaped string.
pub open spec fn quoted(x: Seq<char>) -> Seq<char> {
    seq!['"'] + esc_str(x) + seq!['"']
}

pub open spec fn tags_inner(ts: Seq<Seq<char>>) -> Seq<char>
    decreases ts.len(),
{
    if ts.len() == 0 {
        Seq::empty()
    } else if ts.len() == 1 {
        quoted(ts[0])
    } else {
        quoted(ts[0]) + seq![','] + tags_inner(ts.drop_first())
    }
}

/// The canonical written form of a record: the six stored members in a
/// fixed order, without padding.  The slug is not part of it.
pub open spec fn json_of_post(p: PostM) -> Seq<char> {
    seq!['{'] + quoted(k_title()) + seq![':'] + quoted(p.title) + seq![','] + quoted(k_body())
        + seq![':'] + quoted(p.body) + seq![','] + quoted(k_image()) + seq![':'] + quoted(
        p.image_url,
    ) + seq![','] + quoted(k_summary()) + seq![':'] + quoted(p.summary) + seq![','] + quoted(
        k_ts(),
    ) + seq![':'] + quoted(ts_str(p.ts)) + seq![','] + quoted(k_tags()) + seq![':', '[']
        + tags_inner(p.tags) + seq![']', '}']
}

fn push_quoted(out: &mut Vec<char>, s: &str)
    ensures
        final(out)@ == old(out)@ + quoted(s@),
{
    out.push('"');
    push_escaped(out, s);
    out.push('"');
    proof {
        assert(out@ =~= old(out)@ + quoted(s@));
    }
}

proof fn lemma_tags_inner_push(a: Seq<Seq<char>>, x: Seq<char>)
    ensures
        tags_inner(a.push(x)) == if a.len() == 0 {
            quoted(x)
        } else {
            tags_inner(a) + seq![','] + quoted(x)
        },
    decreases a.len(),
{
    if a.len() == 0 {
        assert(a.push(x)[0] == x);
        assert(a.push(x).len() == 1);
    } else if a.len() == 1 {
        assert(a.push(x)[0] == a[0]);
        assert(a.push(x).drop_first() =~= a.drop_first().push(x));
        lemma_tags_inner_push(a.drop_first(), x);
        assert(a.drop_first().len() == 0);
        assert(tags_inner(a.push(x)) =~= tags_inner(a) + seq![','] + quoted(x));
    } else {
        assert(a.push(x)[0] == a[0]);
        assert(a.push(x).drop_first() =~= a.drop_first().push(x));
        lemma_tags_inner_push(a.drop_first(), x);
        assert(tags_inner(a.push(x)) =~= tags_inner(a) + seq![','] + quoted(x));
    }
}

/// Writes the record in its canonical form.  The slug is left out: it
/// belongs to the storage location.
#[verifier::rlimit(100)]
pub fn serialize_post(p: &Post) -> (r: String)
    requires
        ts_wf(p@.ts),
    ensures
        r@ == json_of_post(p@),
{
    let mut out: Vec<char> = Vec::new();
    out.push('{');
    push_quoted(&mut out, "title");
    out.push(':');
    push_quoted(&mut out, p.title.as_str());
    out.push(',');
    push_quoted(&mut out, "body");
    out.push(':');
    push_quoted(&mut out, p.body.as_str());
    out.push(',');
    push_quoted(&mut out, "image_url");
    out.push(':');
    push_quoted(&mut out, p.image_url.as_str());
    out.push(',');
    push_quoted(&mut out, "summary");
    out.push(':');
    push_quoted(&mut out, p.summary.as_str());
    out.push(',');
    push_quoted(&mut out, "timestamp");
    out.push(':');
    let tsv = format_ts(&p.publish_at);
    let tss = chars_to_string(&tsv);
    push_quoted(&mut out, tss.as_str());
    out.push(',');
    push_quoted(&mut out, "tags");
    out.push(':');
    out.push('[');
    let ghost base = out@;
    let mut ti: usize = 0;
    proof {
        assert(strs_view(p.tags@).subrange(0, 0) =~= Seq::<Seq<char>>::empty());
        assert(out@ =~= base + tags_inner(strs_view(p.tags@).subrange(0, 0)));
    }
    while ti < p.tags.len()
        invariant
            ti <= p.tags@.len(),
            out@ == base + tags_inner(strs_view(p.tags@).subrange(0, ti as int)),
        decreases p.tags@.len() - ti,
    {
        if ti > 0 {
            out.push(',');
        }
        push_quoted(&mut out, p.tags[ti].as_str());
        proof {
            let tv = strs_view(p.tags@);
            assert(tv.subrange(0, ti + 1) =~= tv.subrange(0, ti as int).push(tv[ti as int]));
            lemma_tags_inner_push(tv.subrange(0, ti as int), tv[ti as int]);
            assert(tv[ti as int] == p.tags@[ti as int]@);
            assert(out@ =~= base + tags_inner(tv.subrange(0, ti + 1)));
        }
        ti = ti + 1;
    }
    out.push(']');
    out.push('}');
    proof {
        reveal_strlit("title");
        reveal_strlit("body");
        reveal_strlit("image_url");
        reveal_strlit("summary");
        reveal_strlit("tags");
        assert("title"@ =~= k_title());
        assert("body"@ =~= k_body());
        assert("image_url"@ =~= k_image());
        assert("summary"@ =~= k_summary());
        reveal_strlit("timestamp");
        assert("timestamp"@ =~= k_ts());
        assert("tags"@ =~= k_tags());
        assert(strs_view(p.tags@).subrange(0, p.tags@.len() as int) =~= strs_view(p.tags@));
        assert(out@ =~= json_of_post(p@));
    }
    chars_to_string(&out)
}

} // verus!

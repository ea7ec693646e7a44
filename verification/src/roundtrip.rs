use vstd::prelude::*;
use crate::json::{
    esc_char, esc_str, hex_char, hex_val, is_ws, lemma_hex_char, short_unescape, str_body,
    ws_end,
};
use crate::post::{
    complete, empty_partial, json_of_post, k_body, k_image, k_summary, k_tags, k_title, k_ts,
    member_value, members, parse_fuel, parse_post_text, post_wf, quoted, string_at, tag_items,
    tags_inner, with_slug, PartialM, PostM,
};
use crate::ts::{lemma_ts_roundtrip, parse_ts, ts_str};

verus! {

/// The text `t` stands letter for letter at position `i` of `s`.
pub open spec fn region_at(s: Seq<char>, i: int, t: Seq<char>) -> bool {
    &&& 0 <= i
    &&& i + t.len() <= s.len()
    &&& forall|k: int| 0 <= k < t.len() ==> s[i + k] == #[trigger] t[k]
}

proof fn lemma_region_split(s: Seq<char>, i: int, a: Seq<char>, b: Seq<char>)
    requires
        region_at(s, i, a + b),
    ensures
        region_at(s, i, a),
        region_at(s, i + a.len(), b),
{
    assert forall|k: int| 0 <= k < a.len() implies s[i + k] == #[trigger] a[k] by {
        assert(s[i + k] == (a + b)[k]);
    }
    assert forall|k: int| 0 <= k < b.len() implies s[i + a.len() + k] == #[trigger] b[k] by {
        assert(s[i + (a.len() + k)] == (a + b)[a.len() + k]);
    }
}

/// A character taken out of a sequence is still a Unicode scalar value,
/// so casting it through `u32` gives it back.
proof fn lemma_char_cast(c: char)
    ensures
        ((c as u32) as char) == c,
        (c as u32) < 0xD800 || (0xE000 <= c as u32 && c as u32 <= 0x10FFFF),
{
}

/// A quoted, escaped string reads back as what was escaped.
proof fn lemma_str_body_escaped(s: Seq<char>, i: int, x: Seq<char>)
    requires
        0 <= i,
        i + esc_str(x).len() + 1 <= s.len(),
        forall|k: int| 0 <= k < esc_str(x).len() ==> s[i + k] == #[trigger] esc_str(x)[k],
        s[i + esc_str(x).len()] == '"',
    ensures
        str_body(s, i) == Some((x, i + esc_str(x).len() + 1)),
    decreases x.len(),
{
    if x.len() == 0 {
        assert(x =~= Seq::<char>::empty());
        assert(esc_str(x).len() == 0);
        assert(s[i] == '"');
    } else {
        let c = x[0];
        let e = esc_char(c);
        let rest = x.drop_first();
        lemma_char_cast(c);
        assert(esc_str(x) == e + esc_str(rest));
        let el = e.len() as int;
        assert forall|k: int| 0 <= k < el implies s[i + k] == e[k] by {
            assert(s[i + k] == esc_str(x)[k]);
            assert(esc_str(x)[k] == e[k]);
        }
        let i2 = i + el;
        assert forall|k: int| 0 <= k < esc_str(rest).len() implies s[i2 + k] == #[trigger] esc_str(
            rest,
        )[k] by {
            assert(s[i + (el + k)] == esc_str(x)[el + k]);
            assert(esc_str(x)[el + k] == esc_str(rest)[k]);
        }
        assert(s[i2 + esc_str(rest).len()] == '"');
        lemma_str_body_escaped(s, i2, rest);
        assert(s[i + 0] == e[0]);
        assert(s[i] == e[0]);
        let v: u32 = c as u32;
        if c == '"' || c == '\\' || c == '\n' || c == '\t' || c == '\r' || v == 8 || v == 12 {
            assert(e.len() == 2);
            assert(s[i + 1] == e[1]);
            assert(e[0] == '\\');
            assert(short_unescape(e[1]) == Some(c)) by {
                assert(((c as u32) as char) == c);
                if c == '"' {
                    assert(e[1] == '"');
                } else if c == '\\' {
                    assert(e[1] == '\\');
                } else if c == '\n' {
                    assert(e[1] == 'n');
                } else if c == '\t' {
                    assert(e[1] == 't');
                } else if c == '\r' {
                    assert(e[1] == 'r');
                } else if v == 8 {
                    assert(e[1] == 'b');
                } else {
                    assert(e[1] == 'f');
                }
            }
            assert(str_body(s, i) == Some((seq![c] + rest, i + esc_str(x).len() + 1)));
            assert(seq![c] + rest =~= x);
        } else if v < 32 {
            assert(e.len() == 6);
            assert(s[i + 1] == e[1]);
            assert(s[i + 2] == e[2] && s[i + 3] == e[3]);
            assert(s[i + 4] == e[4] && s[i + 5] == e[5]);
            assert(e[0] == '\\' && e[1] == 'u');
            assert(s[i + 2] == '0' && s[i + 3] == '0');
            let hi: int = (v as int) / 16;
            let lo: int = (v as int) % 16;
            assert(s[i + 4] == hex_char(hi));
            assert(s[i + 5] == hex_char(lo));
            lemma_hex_char(hi);
            lemma_hex_char(lo);
            assert(hex_val('0') == 0);
            let w: int = ((hex_val(s[i + 2]) * 16 + hex_val(s[i + 3])) * 16 + hex_val(s[i + 4]))
                * 16 + hex_val(s[i + 5]);
            assert(w == hi * 16 + lo);
            assert(w == v as int);
            assert(w as u32 == v);
            assert(((c as u32) as char) == c);
            assert(((w as u32) as char) == c);
            assert(str_body(s, i) == Some((seq![c] + rest, i + esc_str(x).len() + 1)));
            assert(seq![c] + rest =~= x);
        } else {
            assert(e == seq![c]);
            assert(e[0] == c);
            assert(s[i] == c);
            assert(str_body(s, i) == Some((seq![c] + rest, i + esc_str(x).len() + 1)));
            assert(seq![c] + rest =~= x);
        }
    }
}

/// A quoted region reads back as its content.
proof fn lemma_quoted_region(s: Seq<char>, i: int, x: Seq<char>)
    requires
        region_at(s, i, quoted(x)),
    ensures
        s[i] == '"',
        str_body(s, i + 1) == Some((x, i + quoted(x).len())),
{
    lemma_region_split(s, i, seq!['"'] + esc_str(x), seq!['"']);
    lemma_region_split(s, i, seq!['"'], esc_str(x));
    assert(s[i] == (seq!['"'])[0]);
    assert(s[i + 1 + esc_str(x).len()] == (seq!['"'])[0]);
    lemma_str_body_escaped(s, i + 1, x);
}

proof fn lemma_not_ws_stops(s: Seq<char>, j: int)
    requires
        0 <= j < s.len(),
        !is_ws(s[j]),
    ensures
        ws_end(s, j) == j,
{
}

proof fn lemma_tags_inner_len(ts: Seq<Seq<char>>)
    ensures
        ts.len() == 0 ==> tags_inner(ts).len() == 0,
        ts.len() > 0 ==> tags_inner(ts).len() >= 3 * ts.len() - 1,
    decreases ts.len(),
{
    if ts.len() > 1 {
        lemma_tags_inner_len(ts.drop_first());
    }
}

/// The written tag array reads back as the same tags.
proof fn lemma_tag_items_canonical(
    s: Seq<char>,
    i: int,
    tags: Seq<Seq<char>>,
    acc: Seq<Seq<char>>,
    fuel: nat,
)
    requires
        0 <= i,
        i + tags_inner(tags).len() + 1 <= s.len(),
        region_at(s, i, tags_inner(tags)),
        s[i + tags_inner(tags).len()] == ']',
        fuel >= tags.len() + 1,
    ensures
        tag_items(s, i, acc, fuel) == Some((acc + tags, i + tags_inner(tags).len() + 1)),
    decreases tags.len(),
{
    if tags.len() == 0 {
        assert(s[i] == ']');
        assert(tag_items(s, i, acc, fuel) == Some((acc, i + 1)));
        assert(acc + tags =~= acc);
    } else {
        let first = tags[0];
        let rest = tags.drop_first();
        if tags.len() == 1 {
            assert(tags_inner(tags) == quoted(first));
            lemma_quoted_region(s, i, first);
            let j = i + quoted(first).len();
            assert(s[j] == ']');
            lemma_not_ws_stops(s, j);
            assert(tag_items(s, i, acc, fuel) == Some((acc.push(first), j + 1)));
            assert(acc.push(first) =~= acc + tags);
        } else {
            assert(tags_inner(tags) == quoted(first) + seq![','] + tags_inner(rest));
            lemma_region_split(s, i, quoted(first) + seq![','], tags_inner(rest));
            lemma_region_split(s, i, quoted(first), seq![',']);
            lemma_quoted_region(s, i, first);
            let j = i + quoted(first).len();
            assert(s[j] == (seq![','])[0]);
            lemma_not_ws_stops(s, j);
            let i2 = j + 1;
            assert(rest.len() > 0);
            lemma_tags_inner_len(rest);
            assert(tags_inner(rest)[0] == quoted(rest[0])[0]) by {
                if rest.len() == 1 {
                } else {
                    assert(tags_inner(rest) == quoted(rest[0]) + seq![','] + tags_inner(
                        rest.drop_first(),
                    ));
                    assert(tags_inner(rest)[0] == (quoted(rest[0]) + seq![','])[0]);
                }
            }
            assert(quoted(rest[0])[0] == (seq!['"'] + esc_str(rest[0]) + seq!['"'])[0]);
            assert(quoted(rest[0])[0] == '"');
            assert(s[i2] == tags_inner(rest)[0]);
            lemma_not_ws_stops(s, i2);
            lemma_tag_items_canonical(s, i2, rest, acc.push(first), (fuel - 1) as nat);
            assert(acc.push(first) + rest =~= acc + tags);
            assert(tag_items(s, i, acc, fuel) == tag_items(s, i2, acc.push(first), (fuel - 1) as nat));
        }
    }
}

proof fn lemma_mv_title(s: Seq<char>, v: int, x: Seq<char>, j: int, acc: PartialM, fuel: nat)
    requires
        fuel >= 1,
        string_at(s, v) == Some((x, j)),
    ensures
        member_value(s, v, k_title(), acc, fuel) == Some(
            (
                PartialM {
                    title: Some(x),
                    body: acc.body,
                    image_url: acc.image_url,
                    summary: acc.summary,
                    ts: acc.ts,
                    tags: acc.tags,
                },
                j,
            ),
        ),
{
}

proof fn lemma_mv_body(s: Seq<char>, v: int, x: Seq<char>, j: int, acc: PartialM, fuel: nat)
    requires
        fuel >= 1,
        string_at(s, v) == Some((x, j)),
    ensures
        member_value(s, v, k_body(), acc, fuel) == Some(
            (
                PartialM {
                    title: acc.title,
                    body: Some(x),
                    image_url: acc.image_url,
                    summary: acc.summary,
                    ts: acc.ts,
                    tags: acc.tags,
                },
                j,
            ),
        ),
{
    assert(k_body().len() == 4 && k_title().len() == 5);
}

proof fn lemma_mv_image(s: Seq<char>, v: int, x: Seq<char>, j: int, acc: PartialM, fuel: nat)
    requires
        fuel >= 1,
        string_at(s, v) == Some((x, j)),
    ensures
        member_value(s, v, k_image(), acc, fuel) == Some(
            (
                PartialM {
                    title: acc.title,
                    body: acc.body,
                    image_url: Some(x),
                    summary: acc.summary,
                    ts: acc.ts,
                    tags: acc.tags,
                },
                j,
            ),
        ),
{
    assert(k_image().len() == 9 && k_title().len() == 5 && k_body().len() == 4);
}

proof fn lemma_mv_summary(s: Seq<char>, v: int, x: Seq<char>, j: int, acc: PartialM, fuel: nat)
    requires
        fuel >= 1,
        string_at(s, v) == Some((x, j)),
    ensures
        member_value(s, v, k_summary(), acc, fuel) == Some(
            (
                PartialM {
                    title: acc.title,
                    body: acc.body,
                    image_url: acc.image_url,
                    summary: Some(x),
                    ts: acc.ts,
                    tags: acc.tags,
                },
                j,
            ),
        ),
{
    assert(k_summary().len() == 7 && k_title().len() == 5 && k_body().len() == 4 && k_image().len()
        == 9);
}

proof fn lemma_mv_ts(s: Seq<char>, v: int, x: Seq<char>, j: int, acc: PartialM, fuel: nat)
    requires
        fuel >= 1,
        string_at(s, v) == Some((x, j)),
        parse_ts(x) is Some,
    ensures
        member_value(s, v, k_ts(), acc, fuel) == Some(
            (
                PartialM {
                    title: acc.title,
                    body: acc.body,
                    image_url: acc.image_url,
                    summary: acc.summary,
                    ts: Some(parse_ts(x)->0),
                    tags: acc.tags,
                },
                j,
            ),
        ),
{
    assert(k_ts().len() == 9 && k_title().len() == 5 && k_body().len() == 4 && k_summary().len()
        == 7);
    assert(k_ts() != k_image()) by {
        if k_ts() == k_image() {
            assert(k_ts()[0] == k_image()[0]);
        }
    }
}

proof fn lemma_mv_tags(s: Seq<char>, v: int, tags: Seq<Seq<char>>, jend: int, acc: PartialM, fuel: nat)
    requires
        fuel >= 1,
        0 <= v < s.len(),
        s[v] == '[',
        tag_items(s, ws_end(s, v + 1), Seq::empty(), (fuel - 1) as nat) == Some((tags, jend)),
    ensures
        member_value(s, v, k_tags(), acc, fuel) == Some(
            (
                PartialM {
                    title: acc.title,
                    body: acc.body,
                    image_url: acc.image_url,
                    summary: acc.summary,
                    ts: acc.ts,
                    tags: Some(tags),
                },
                jend,
            ),
        ),
{
    assert(k_tags().len() == 4 && k_title().len() == 5 && k_image().len() == 9 && k_summary().len()
        == 7 && k_ts().len() == 9);
    assert(k_tags() != k_body()) by {
        if k_tags() == k_body() {
            assert(k_tags()[0] == k_body()[0]);
        }
    }
}

proof fn lemma_members_step_comma(
    s: Seq<char>,
    i: int,
    key: Seq<char>,
    j: int,
    acc: PartialM,
    acc2: PartialM,
    j2: int,
    fuel: nat,
)
    requires
        fuel >= 1,
        0 <= i < s.len(),
        s[i] == '"',
        str_body(s, i + 1) == Some((key, j)),
        0 <= j < s.len(),
        ws_end(s, j) == j,
        s[j] == ':',
        ws_end(s, j + 1) == j + 1,
        member_value(s, j + 1, key, acc, (fuel - 1) as nat) == Some((acc2, j2)),
        0 <= j2 < s.len(),
        ws_end(s, j2) == j2,
        s[j2] == ',',
        ws_end(s, j2 + 1) == j2 + 1,
    ensures
        members(s, i, acc, fuel) == members(s, j2 + 1, acc2, (fuel - 1) as nat),
{
}

proof fn lemma_members_step_close(
    s: Seq<char>,
    i: int,
    key: Seq<char>,
    j: int,
    acc: PartialM,
    acc2: PartialM,
    j2: int,
    fuel: nat,
)
    requires
        fuel >= 1,
        0 <= i < s.len(),
        s[i] == '"',
        str_body(s, i + 1) == Some((key, j)),
        0 <= j < s.len(),
        ws_end(s, j) == j,
        s[j] == ':',
        ws_end(s, j + 1) == j + 1,
        member_value(s, j + 1, key, acc, (fuel - 1) as nat) == Some((acc2, j2)),
        0 <= j2 < s.len(),
        ws_end(s, j2) == j2,
        s[j2] == '}',
    ensures
        members(s, i, acc, fuel) == Some((acc2, j2 + 1)),
{
}

/// One string-valued member followed by a comma: the walk takes it and
/// moves on with the field set.
proof fn lemma_rt_string_member(
    s: Seq<char>,
    i: int,
    key: Seq<char>,
    x: Seq<char>,
    acc: PartialM,
    acc2: PartialM,
    fuel: nat,
)
    requires
        fuel >= 2,
        region_at(s, i, quoted(key)),
        region_at(s, i + quoted(key).len(), seq![':']),
        region_at(s, i + quoted(key).len() + 1, quoted(x)),
        region_at(s, i + quoted(key).len() + 1 + quoted(x).len(), seq![',']),
        i + quoted(key).len() + 1 + quoted(x).len() + 1 < s.len(),
        !is_ws(s[i + quoted(key).len() + 1 + quoted(x).len() + 1]),
        member_value(s, i + quoted(key).len() + 1, key, acc, (fuel - 1) as nat) == Some(
            (acc2, i + quoted(key).len() + 1 + quoted(x).len()),
        ),
    ensures
        members(s, i, acc, fuel) == members(
            s,
            i + quoted(key).len() + 1 + quoted(x).len() + 1,
            acc2,
            (fuel - 1) as nat,
        ),
{
    let j = i + quoted(key).len();
    let j2 = j + 1 + quoted(x).len();
    lemma_quoted_region(s, i, key);
    assert(s[j + 0] == (seq![':'])[0]);
    assert(s[j] == ':');
    lemma_not_ws_stops(s, j);
    lemma_quoted_region(s, j + 1, x);
    assert(s[j + 1] == '"');
    lemma_not_ws_stops(s, j + 1);
    assert(s[j2 + 0] == (seq![','])[0]);
    assert(s[j2] == ',');
    lemma_not_ws_stops(s, j2);
    lemma_not_ws_stops(s, j2 + 1);
    lemma_members_step_comma(s, i, key, j, acc, acc2, j2, fuel);
}

/// The closing tag member: the walk takes the array, meets the brace,
/// and ends with every field gathered.
proof fn lemma_rt_tags_member(
    s: Seq<char>,
    i: int,
    tags: Seq<Seq<char>>,
    acc: PartialM,
    acc2: PartialM,
    fuel: nat,
)
    requires
        fuel >= tags.len() + 3,
        region_at(s, i, quoted(k_tags())),
        region_at(s, i + quoted(k_tags()).len(), seq![':', '[']),
        region_at(s, i + quoted(k_tags()).len() + 2, tags_inner(tags)),
        region_at(s, i + quoted(k_tags()).len() + 2 + tags_inner(tags).len(), seq![']', '}']),
        i + quoted(k_tags()).len() + 2 + tags_inner(tags).len() + 2 == s.len(),
        acc2 == (PartialM {
            title: acc.title,
            body: acc.body,
            image_url: acc.image_url,
            summary: acc.summary,
            ts: acc.ts,
            tags: Some(tags),
        }),
    ensures
        members(s, i, acc, fuel) == Some((acc2, s.len() as int)),
{
    let j = i + quoted(k_tags()).len();
    let ti = j + 2;
    let te = ti + tags_inner(tags).len();
    lemma_quoted_region(s, i, k_tags());
    assert(s[j + 0] == (seq![':', '['])[0]);
    assert(s[j + 1] == (seq![':', '['])[1]);
    assert(s[j] == ':' && s[j + 1] == '[');
    lemma_not_ws_stops(s, j);
    lemma_not_ws_stops(s, j + 1);
    assert(s[te + 0] == (seq![']', '}'])[0]);
    assert(s[te + 1] == (seq![']', '}'])[1]);
    assert(s[te] == ']' && s[te + 1] == '}');
    assert(ws_end(s, ti) == ti) by {
        if tags.len() == 0 {
            assert(tags_inner(tags).len() == 0);
            assert(s[ti] == ']');
            lemma_not_ws_stops(s, ti);
        } else {
            assert(tags_inner(tags)[0] == quoted(tags[0])[0]) by {
                if tags.len() == 1 {
                } else {
                    assert(tags_inner(tags) == quoted(tags[0]) + seq![','] + tags_inner(
                        tags.drop_first(),
                    ));
                    assert(tags_inner(tags)[0] == (quoted(tags[0]) + seq![','])[0]);
                }
            }
            assert(quoted(tags[0])[0] == (seq!['"'] + esc_str(tags[0]) + seq!['"'])[0]);
            assert(s[ti + 0] == tags_inner(tags)[0]);
            assert(s[ti] == '"');
            lemma_not_ws_stops(s, ti);
        }
    }
    lemma_tag_items_canonical(s, ti, tags, Seq::empty(), (fuel - 2) as nat);
    assert(Seq::<Seq<char>>::empty() + tags =~= tags);
    assert((((fuel - 1) as nat) - 1) as nat == (fuel - 2) as nat);
    lemma_mv_tags(s, j + 1, tags, te + 1, acc, (fuel - 1) as nat);
    lemma_not_ws_stops(s, te + 1);
    lemma_members_step_close(s, i, k_tags(), j, acc, acc2, te + 1, fuel);
}

proof fn lemma_rt_member_title(s: Seq<char>, i: int, x: Seq<char>, acc: PartialM, fuel: nat)
    requires
        fuel >= 2,
        region_at(s, i, quoted(k_title())),
        region_at(s, i + quoted(k_title()).len(), seq![':']),
        region_at(s, i + quoted(k_title()).len() + 1, quoted(x)),
        region_at(s, i + quoted(k_title()).len() + 1 + quoted(x).len(), seq![',']),
        i + quoted(k_title()).len() + 1 + quoted(x).len() + 1 < s.len(),
        !is_ws(s[i + quoted(k_title()).len() + 1 + quoted(x).len() + 1]),
    ensures
        members(s, i, acc, fuel) == members(
            s,
            i + quoted(k_title()).len() + 1 + quoted(x).len() + 1,
            PartialM { title: Some(x), body: acc.body, image_url: acc.image_url, summary: acc.summary, ts: acc.ts, tags: acc.tags },
            (fuel - 1) as nat,
        ),
{
    let v = i + quoted(k_title()).len() + 1;
    lemma_quoted_region(s, v, x);
    assert(string_at(s, v) == Some((x, v + quoted(x).len())));
    lemma_mv_title(s, v, x, v + quoted(x).len(), acc, (fuel - 1) as nat);
    lemma_rt_string_member(s, i, k_title(), x, acc, PartialM { title: Some(x), body: acc.body, image_url: acc.image_url, summary: acc.summary, ts: acc.ts, tags: acc.tags }, fuel);
}

proof fn lemma_rt_member_body(s: Seq<char>, i: int, x: Seq<char>, acc: PartialM, fuel: nat)
    requires
        fuel >= 2,
        region_at(s, i, quoted(k_body())),
        region_at(s, i + quoted(k_body()).len(), seq![':']),
        region_at(s, i + quoted(k_body()).len() + 1, quoted(x)),
        region_at(s, i + quoted(k_body()).len() + 1 + quoted(x).len(), seq![',']),
        i + quoted(k_body()).len() + 1 + quoted(x).len() + 1 < s.len(),
        !is_ws(s[i + quoted(k_body()).len() + 1 + quoted(x).len() + 1]),
    ensures
        members(s, i, acc, fuel) == members(
            s,
            i + quoted(k_body()).len() + 1 + quoted(x).len() + 1,
            PartialM { title: acc.title, body: Some(x), image_url: acc.image_url, summary: acc.summary, ts: acc.ts, tags: acc.tags },
            (fuel - 1) as nat,
        ),
{
    let v = i + quoted(k_body()).len() + 1;
    lemma_quoted_region(s, v, x);
    assert(string_at(s, v) == Some((x, v + quoted(x).len())));
    lemma_mv_body(s, v, x, v + quoted(x).len(), acc, (fuel - 1) as nat);
    lemma_rt_string_member(s, i, k_body(), x, acc, PartialM { title: acc.title, body: Some(x), image_url: acc.image_url, summary: acc.summary, ts: acc.ts, tags: acc.tags }, fuel);
}

proof fn lemma_rt_member_image(s: Seq<char>, i: int, x: Seq<char>, acc: PartialM, fuel: nat)
    requires
        fuel >= 2,
        region_at(s, i, quoted(k_image())),
        region_at(s, i + quoted(k_image()).len(), seq![':']),
        region_at(s, i + quoted(k_image()).len() + 1, quoted(x)),
        region_at(s, i + quoted(k_image()).len() + 1 + quoted(x).len(), seq![',']),
        i + quoted(k_image()).len() + 1 + quoted(x).len() + 1 < s.len(),
        !is_ws(s[i + quoted(k_image()).len() + 1 + quoted(x).len() + 1]),
    ensures
        members(s, i, acc, fuel) == members(
            s,
            i + quoted(k_image()).len() + 1 + quoted(x).len() + 1,
            PartialM { title: acc.title, body: acc.body, image_url: Some(x), summary: acc.summary, ts: acc.ts, tags: acc.tags },
            (fuel - 1) as nat,
        ),
{
    let v = i + quoted(k_image()).len() + 1;
    lemma_quoted_region(s, v, x);
    assert(string_at(s, v) == Some((x, v + quoted(x).len())));
    lemma_mv_image(s, v, x, v + quoted(x).len(), acc, (fuel - 1) as nat);
    lemma_rt_string_member(s, i, k_image(), x, acc, PartialM { title: acc.title, body: acc.body, image_url: Some(x), summary: acc.summary, ts: acc.ts, tags: acc.tags }, fuel);
}

proof fn lemma_rt_member_summary(s: Seq<char>, i: int, x: Seq<char>, acc: PartialM, fuel: nat)
    requires
        fuel >= 2,
        region_at(s, i, quoted(k_summary())),
        region_at(s, i + quoted(k_summary()).len(), seq![':']),
        region_at(s, i + quoted(k_summary()).len() + 1, quoted(x)),
        region_at(s, i + quoted(k_summary()).len() + 1 + quoted(x).len(), seq![',']),
        i + quoted(k_summary()).len() + 1 + quoted(x).len() + 1 < s.len(),
        !is_ws(s[i + quoted(k_summary()).len() + 1 + quoted(x).len() + 1]),
    ensures
        members(s, i, acc, fuel) == members(
            s,
            i + quoted(k_summary()).len() + 1 + quoted(x).len() + 1,
            PartialM { title: acc.title, body: acc.body, image_url: acc.image_url, summary: Some(x), ts: acc.ts, tags: acc.tags },
            (fuel - 1) as nat,
        ),
{
    let v = i + quoted(k_summary()).len() + 1;
    lemma_quoted_region(s, v, x);
    assert(string_at(s, v) == Some((x, v + quoted(x).len())));
    lemma_mv_summary(s, v, x, v + quoted(x).len(), acc, (fuel - 1) as nat);
    lemma_rt_string_member(s, i, k_summary(), x, acc, PartialM { title: acc.title, body: acc.body, image_url: acc.image_url, summary: Some(x), ts: acc.ts, tags: acc.tags }, fuel);
}

proof fn lemma_rt_member_ts(s: Seq<char>, i: int, x: Seq<char>, acc: PartialM, fuel: nat)
    requires
        fuel >= 2,
        parse_ts(x) is Some,
        region_at(s, i, quoted(k_ts())),
        region_at(s, i + quoted(k_ts()).len(), seq![':']),
        region_at(s, i + quoted(k_ts()).len() + 1, quoted(x)),
        region_at(s, i + quoted(k_ts()).len() + 1 + quoted(x).len(), seq![',']),
        i + quoted(k_ts()).len() + 1 + quoted(x).len() + 1 < s.len(),
        !is_ws(s[i + quoted(k_ts()).len() + 1 + quoted(x).len() + 1]),
    ensures
        members(s, i, acc, fuel) == members(
            s,
            i + quoted(k_ts()).len() + 1 + quoted(x).len() + 1,
            PartialM { title: acc.title, body: acc.body, image_url: acc.image_url, summary: acc.summary, ts: Some(parse_ts(x)->0), tags: acc.tags },
            (fuel - 1) as nat,
        ),
{
    let v = i + quoted(k_ts()).len() + 1;
    lemma_quoted_region(s, v, x);
    assert(string_at(s, v) == Some((x, v + quoted(x).len())));
    lemma_mv_ts(s, v, x, v + quoted(x).len(), acc, (fuel - 1) as nat);
    lemma_rt_string_member(s, i, k_ts(), x, acc, PartialM { title: acc.title, body: acc.body, image_url: acc.image_url, summary: acc.summary, ts: Some(parse_ts(x)->0), tags: acc.tags }, fuel);
}

/// Writing a well-formed record and reading it back gives the same
/// record, except that the slug is cleared: the slug never travels
/// through the payload.
#[verifier::rlimit(100)]
pub proof fn lemma_post_roundtrip(p: PostM)
    requires
        post_wf(p),
        json_of_post(p).len() <= usize::MAX as int / 4,
    ensures
        parse_post_text(json_of_post(p)) == Some(with_slug(p, Seq::<char>::empty())),
{
    let s = json_of_post(p);
    let g1 = seq!['{'];
    let g2 = quoted(k_title());
    let g3 = seq![':'];
    let g4 = quoted(p.title);
    let g5 = seq![','];
    let g6 = quoted(k_body());
    let g7 = seq![':'];
    let g8 = quoted(p.body);
    let g9 = seq![','];
    let g10 = quoted(k_image());
    let g11 = seq![':'];
    let g12 = quoted(p.image_url);
    let g13 = seq![','];
    let g14 = quoted(k_summary());
    let g15 = seq![':'];
    let g16 = quoted(p.summary);
    let g17 = seq![','];
    let g18 = quoted(k_ts());
    let g19 = seq![':'];
    let g20 = quoted(ts_str(p.ts));
    let g21 = seq![','];
    let g22 = quoted(k_tags());
    let g23 = seq![':', '['];
    let g24 = tags_inner(p.tags);
    let g25 = seq![']', '}'];
    let p1 = g1;
    let p2 = p1 + g2;
    let p3 = p2 + g3;
    let p4 = p3 + g4;
    let p5 = p4 + g5;
    let p6 = p5 + g6;
    let p7 = p6 + g7;
    let p8 = p7 + g8;
    let p9 = p8 + g9;
    let p10 = p9 + g10;
    let p11 = p10 + g11;
    let p12 = p11 + g12;
    let p13 = p12 + g13;
    let p14 = p13 + g14;
    let p15 = p14 + g15;
    let p16 = p15 + g16;
    let p17 = p16 + g17;
    let p18 = p17 + g18;
    let p19 = p18 + g19;
    let p20 = p19 + g20;
    let p21 = p20 + g21;
    let p22 = p21 + g22;
    let p23 = p22 + g23;
    let p24 = p23 + g24;
    let p25 = p24 + g25;
    assert(s == p25);
    assert(region_at(s, 0, p25)) by {
        assert forall|k: int| 0 <= k < p25.len() implies s[0 + k] == #[trigger] p25[k] by {}
    }
    lemma_region_split(s, 0, p24, g25);
    lemma_region_split(s, 0, p23, g24);
    lemma_region_split(s, 0, p22, g23);
    lemma_region_split(s, 0, p21, g22);
    lemma_region_split(s, 0, p20, g21);
    lemma_region_split(s, 0, p19, g20);
    lemma_region_split(s, 0, p18, g19);
    lemma_region_split(s, 0, p17, g18);
    lemma_region_split(s, 0, p16, g17);
    lemma_region_split(s, 0, p15, g16);
    lemma_region_split(s, 0, p14, g15);
    lemma_region_split(s, 0, p13, g14);
    lemma_region_split(s, 0, p12, g13);
    lemma_region_split(s, 0, p11, g12);
    lemma_region_split(s, 0, p10, g11);
    lemma_region_split(s, 0, p9, g10);
    lemma_region_split(s, 0, p8, g9);
    lemma_region_split(s, 0, p7, g8);
    lemma_region_split(s, 0, p6, g7);
    lemma_region_split(s, 0, p5, g6);
    lemma_region_split(s, 0, p4, g5);
    lemma_region_split(s, 0, p3, g4);
    lemma_region_split(s, 0, p2, g3);
    lemma_region_split(s, 0, p1, g2);

    let o2 = p1.len() as int;
    let o6 = p5.len() as int;
    let o10 = p9.len() as int;
    let o14 = p13.len() as int;
    let o18 = p17.len() as int;
    let o22 = p21.len() as int;

    // Fuel never runs out on the canonical text.
    lemma_tags_inner_len(p.tags);
    let f0 = parse_fuel(s);
    assert(f0 == 2 * s.len() + 4);
    assert(s.len() >= g24.len() + 30);
    assert(g24.len() + 1 >= p.tags.len());
    assert(f0 >= 2 * p.tags.len() + 20);

    // The fields gathered after each member.
    let a0 = empty_partial();
    let a1 = PartialM {
        title: Some(p.title),
        body: a0.body,
        image_url: a0.image_url,
        summary: a0.summary,
        ts: a0.ts,
        tags: a0.tags,
    };
    let a2 = PartialM {
        title: a1.title,
        body: Some(p.body),
        image_url: a1.image_url,
        summary: a1.summary,
        ts: a1.ts,
        tags: a1.tags,
    };
    let a3 = PartialM {
        title: a2.title,
        body: a2.body,
        image_url: Some(p.image_url),
        summary: a2.summary,
        ts: a2.ts,
        tags: a2.tags,
    };
    let a4 = PartialM {
        title: a3.title,
        body: a3.body,
        image_url: a3.image_url,
        summary: Some(p.summary),
        ts: a3.ts,
        tags: a3.tags,
    };
    let a5 = PartialM {
        title: a4.title,
        body: a4.body,
        image_url: a4.image_url,
        summary: a4.summary,
        ts: Some(p.ts),
        tags: a4.tags,
    };
    let a6 = PartialM {
        title: a5.title,
        body: a5.body,
        image_url: a5.image_url,
        summary: a5.summary,
        ts: a5.ts,
        tags: Some(p.tags),
    };

    // The members, one after the other.
    lemma_rt_member_title(s, o2, p.title, a0, f0);
    assert(members(s, o2, a0, f0) == members(s, o6, a1, (f0 - 1) as nat));
    lemma_rt_member_body(s, o6, p.body, a1, (f0 - 1) as nat);
    assert(members(s, o6, a1, (f0 - 1) as nat) == members(s, o10, a2, (f0 - 2) as nat));
    lemma_rt_member_image(s, o10, p.image_url, a2, (f0 - 2) as nat);
    assert(members(s, o10, a2, (f0 - 2) as nat) == members(s, o14, a3, (f0 - 3) as nat));
    lemma_rt_member_summary(s, o14, p.summary, a3, (f0 - 3) as nat);
    assert(members(s, o14, a3, (f0 - 3) as nat) == members(s, o18, a4, (f0 - 4) as nat));
    lemma_ts_roundtrip(p.ts);
    lemma_rt_member_ts(s, o18, ts_str(p.ts), a4, (f0 - 4) as nat);
    assert(members(s, o18, a4, (f0 - 4) as nat) == members(s, o22, a5, (f0 - 5) as nat));
    lemma_rt_tags_member(s, o22, p.tags, a5, a6, (f0 - 5) as nat);
    assert(members(s, o2, a0, f0) == Some((a6, s.len() as int)));

    // Top level.
    assert(s[0int + 0] == g1[0]);
    assert(s[0] == '{');
    lemma_not_ws_stops(s, 0);
    assert(s[o2 + 0] == g2[0]);
    assert(g2[0] == (seq!['"'] + esc_str(k_title()) + seq!['"'])[0]);
    assert(s[o2] == '"');
    lemma_not_ws_stops(s, o2);
    assert(o2 == 1);
    assert(ws_end(s, s.len() as int) == s.len() as int);
    assert(complete(a6) == Some(with_slug(p, Seq::<char>::empty())));
    assert(parse_post_text(s) == Some(with_slug(p, Seq::<char>::empty())));
}

} // verus!

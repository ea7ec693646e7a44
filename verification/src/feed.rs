use vstd::prelude::*;
use vstd::string::StringExecFns;
use crate::post::{strs_view, Post, PostM};
use crate::ts::{epoch_of, lemma_epoch_in_range, ts_wf};
use crate::tz::{display_zone, format_in_zone, formatted_in_zone, UserTz};

verus! {

/// One feed card, ready for presentation.
pub struct PostView {
    pub title: String,
    pub image_url: String,
    pub formatted_time: String,
    pub summary: String,
    pub link: String,
}

pub ghost struct PostViewM {
    pub title: Seq<char>,
    pub image_url: Seq<char>,
    pub formatted_time: Seq<char>,
    pub summary: Seq<char>,
    pub link: Seq<char>,
}

impl View for PostView {
    type V = PostViewM;

    open spec fn view(&self) -> PostViewM {
        PostViewM {
            title: self.title@,
            image_url: self.image_url@,
            formatted_time: self.formatted_time@,
            summary: self.summary@,
            link: self.link@,
        }
    }
}

/// Whether a record passes the tag gate: with no filter every record
/// does; with one, exactly the records whose tag set holds that exact
/// string (case-sensitive).
pub open spec fn tag_passes(tags: Seq<Seq<char>>, filter: Option<Seq<char>>) -> bool {
    match filter {
        None => true,
        Some(t) => tags.contains(t),
    }
}

/// The card one record renders to, for a display zone.
pub open spec fn view_of(p: PostM, zone: Seq<char>) -> PostViewM {
    PostViewM {
        title: p.title,
        image_url: p.image_url,
        formatted_time: formatted_in_zone(epoch_of(p.ts) as i64, zone),
        summary: p.summary,
        link: "/post/"@ + p.slug,
    }
}

/// The whole feed: the records published by `now` that pass the tag
/// gate, in the stored order, one card each.  The instant itself is
/// never changed; only its display goes through the zone.
pub open spec fn feed_views(
    posts: Seq<PostM>,
    now: i64,
    zone: Seq<char>,
    filter: Option<Seq<char>>,
) -> Seq<PostViewM>
    decreases posts.len(),
{
    if posts.len() == 0 {
        Seq::empty()
    } else {
        feed_views(posts.drop_last(), now, zone, filter) + if epoch_of(posts.last().ts) <= now
            && tag_passes(posts.last().tags, filter) {
            seq![view_of(posts.last(), zone)]
        } else {
            Seq::<PostViewM>::empty()
        }
    }
}

pub open spec fn opt_string_view(o: Option<&String>) -> Option<Seq<char>> {
    match o {
        Some(s) => Some(s@),
        None => None,
    }
}

fn contains_string(v: &Vec<String>, x: &String) -> (r: bool)
    ensures
        r == strs_view(v@).contains(x@),
{
    let mut i: usize = 0;
    while i < v.len()
        invariant
            i <= v@.len(),
            forall|k: int| 0 <= k < i ==> strs_view(v@)[k] != x@,
        decreases v@.len() - i,
    {
        if v[i] == *x {
            proof {
                assert(strs_view(v@)[i as int] == x@);
            }
            return true;
        }
        i = i + 1;
    }
    proof {
        if strs_view(v@).contains(x@) {
            let k = choose|k: int| 0 <= k < strs_view(v@).len() && strs_view(v@)[k] == x@;
            assert(strs_view(v@)[k] != x@);
        }
    }
    false
}

/// Renders the feed for a viewer.  The publish gate compares absolute
/// instants; a record scheduled after `now` is dropped whatever the
/// filter says.  Survivors keep the stored order.
pub fn render_feed(posts: &Vec<Post>, now: i64, tz: &UserTz, tag: Option<&String>) -> (r: Vec<
    PostView,
>)
    requires
        forall|k: int| 0 <= k < posts@.len() ==> ts_wf((#[trigger] posts@[k])@.ts),
    ensures
        r@.map_values(|v: PostView| v@) == feed_views(
            posts@.map_values(|p: Post| p@),
            now,
            display_zone(tz.0@),
            opt_string_view(tag),
        ),
{
    let ghost models = posts@.map_values(|p: Post| p@);
    let ghost zone = display_zone(tz.0@);
    let ghost filter = opt_string_view(tag);
    let mut out: Vec<PostView> = Vec::new();
    let mut i: usize = 0;
    proof {
        assert(models.subrange(0, 0) =~= Seq::<PostM>::empty());
        assert(out@.map_values(|v: PostView| v@) =~= feed_views(
            models.subrange(0, 0),
            now,
            zone,
            filter,
        ));
    }
    while i < posts.len()
        invariant
            i <= posts@.len(),
            models == posts@.map_values(|p: Post| p@),
            zone == display_zone(tz.0@),
            filter == opt_string_view(tag),
            forall|k: int| 0 <= k < posts@.len() ==> ts_wf((#[trigger] posts@[k])@.ts),
            out@.map_values(|v: PostView| v@) == feed_views(
                models.subrange(0, i as int),
                now,
                zone,
                filter,
            ),
        decreases posts@.len() - i,
    {
        let p = &posts[i];
        proof {
            assert(models[i as int] == p@);
            lemma_epoch_in_range(p@.ts);
        }
        let epoch: i64 = p.publish_at.epoch_seconds();
        let passes_tag: bool = match tag {
            Some(t) => contains_string(&p.tags, t),
            None => true,
        };
        let ghost prev = out@.map_values(|v: PostView| v@);
        if epoch <= now && passes_tag {
            let mut link = String::from_str("/post/");
            link.append(p.slug.as_str());
            let card = PostView {
                title: p.title.clone(),
                image_url: p.image_url.clone(),
                formatted_time: format_in_zone(epoch, tz.0.as_str()),
                summary: p.summary.clone(),
                link,
            };
            proof {
                assert(card@ == view_of(models[i as int], zone));
            }
            out.push(card);
            proof {
                assert(out@.map_values(|v: PostView| v@) =~= prev.push(view_of(
                    models[i as int],
                    zone,
                )));
            }
        }
        proof {
            let ext = models.subrange(0, i + 1);
            assert(ext.drop_last() =~= models.subrange(0, i as int));
            assert(ext.last() == models[i as int]);
            assert(out@.map_values(|v: PostView| v@) =~= feed_views(ext, now, zone, filter));
        }
        i = i + 1;
    }
    proof {
        assert(models.subrange(0, models.len() as int) =~= models);
    }
    out
}

// ---------------------------------------------------------------------------
// Gate laws
// ---------------------------------------------------------------------------

/// A record scheduled after `now` never reaches the feed, whatever the
/// tag filter: the feed of any listing equals the feed of the listing
/// with the future records taken out.
pub proof fn lemma_publish_gate(
    posts: Seq<PostM>,
    now: i64,
    zone: Seq<char>,
    filter: Option<Seq<char>>,
)
    ensures
        feed_views(posts, now, zone, filter) == feed_views(
            posts.filter(|p: PostM| epoch_of(p.ts) <= now),
            now,
            zone,
            filter,
        ),
    decreases posts.len(),
{
    reveal(Seq::filter);
    let pred = |p: PostM| epoch_of(p.ts) <= now;
    if posts.len() > 0 {
        lemma_publish_gate(posts.drop_last(), now, zone, filter);
        let last = posts.last();
        if pred(last) {
            assert(posts.filter(pred) == posts.drop_last().filter(pred).push(last));
            assert(posts.filter(pred).drop_last() =~= posts.drop_last().filter(pred));
            assert(posts.filter(pred).last() == last);
        } else {
            assert(posts.filter(pred) == posts.drop_last().filter(pred));
            assert(feed_views(posts, now, zone, filter) =~= feed_views(
                posts.drop_last(),
                now,
                zone,
                filter,
            ));
        }
    } else {
        assert(posts.filter(pred) =~= Seq::<PostM>::empty());
    }
}

/// Filtering by a tag yields exactly the feed of the records whose tag
/// set holds that tag.
pub proof fn lemma_tag_gate(posts: Seq<PostM>, now: i64, zone: Seq<char>, t: Seq<char>)
    ensures
        feed_views(posts, now, zone, Some(t)) == feed_views(
            posts.filter(|p: PostM| p.tags.contains(t)),
            now,
            zone,
            None,
        ),
    decreases posts.len(),
{
    reveal(Seq::filter);
    let pred = |p: PostM| p.tags.contains(t);
    if posts.len() > 0 {
        lemma_tag_gate(posts.drop_last(), now, zone, t);
        let last = posts.last();
        if pred(last) {
            assert(posts.filter(pred) == posts.drop_last().filter(pred).push(last));
            assert(posts.filter(pred).drop_last() =~= posts.drop_last().filter(pred));
            assert(posts.filter(pred).last() == last);
        } else {
            assert(posts.filter(pred) == posts.drop_last().filter(pred));
            assert(feed_views(posts, now, zone, Some(t)) =~= feed_views(
                posts.drop_last(),
                now,
                zone,
                Some(t),
            ));
        }
    } else {
        assert(posts.filter(pred) =~= Seq::<PostM>::empty());
    }
}

/// The filtered feed is a subset of the unfiltered one: every card it
/// shows, the unfiltered feed shows too.
pub proof fn lemma_tag_gate_subset(posts: Seq<PostM>, now: i64, zone: Seq<char>, t: Seq<char>)
    ensures
        forall|v: PostViewM|
            feed_views(posts, now, zone, Some(t)).contains(v) ==> feed_views(
                posts,
                now,
                zone,
                None,
            ).contains(v),
    decreases posts.len(),
{
    if posts.len() > 0 {
        lemma_tag_gate_subset(posts.drop_last(), now, zone, t);
        let last = posts.last();
        let rest_some = feed_views(posts.drop_last(), now, zone, Some(t));
        let rest_none = feed_views(posts.drop_last(), now, zone, None);
        assert forall|v: PostViewM|
            feed_views(posts, now, zone, Some(t)).contains(v) implies feed_views(
            posts,
            now,
            zone,
            None,
        ).contains(v) by {
            let all_some = feed_views(posts, now, zone, Some(t));
            let all_none = feed_views(posts, now, zone, None);
            let j = choose|j: int| 0 <= j < all_some.len() && all_some[j] == v;
            if j < rest_some.len() {
                assert(rest_some.contains(v));
                assert(rest_none.contains(v));
                let k = choose|k: int| 0 <= k < rest_none.len() && rest_none[k] == v;
                assert(all_none[k] == v);
            } else {
                assert(epoch_of(last.ts) <= now && tag_passes(last.tags, Some(t)));
                assert(v == view_of(last, zone));
                assert(all_none[all_none.len() - 1] == v);
            }
        }
    }
}

} // verus!

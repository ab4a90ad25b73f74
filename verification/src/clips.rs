//! Published clips: numbered, broadcast, and kept for devices that join late.

use vstd::prelude::*;
use vstd::string::*;
use vstd::utf8::*;
use crate::events::{Event, EventText};
use crate::json::{
    is_object, json_text, lemma_first_member, lemma_is_object, lemma_next_member, push_json, Scalar,
};
use crate::num::{
    dec, dec_is_read_back, dec_string, lemma_dec_round_trip, is_digit, parse_signed, push_dec,
};
use crate::reply::{plain, Reply};
use crate::text::join;

verus! {

/// How many clips are kept.
pub const KEPT_CLIPS: usize = 20;

/// Largest clip, in bytes.
pub const MAX_CLIP_BYTES: usize = 1_048_576;

struct StoredClip {
    id: u64,
    text: String,
}

/// A published clip.
#[verifier::ext_equal]
pub struct Published {
    pub id: nat,
    pub text: Seq<char>,
}

impl View for StoredClip {
    type V = Published;

    closed spec fn view(&self) -> Published {
        Published { id: self.id as nat, text: self.text@ }
    }
}

spec fn views(v: Seq<StoredClip>) -> Seq<Published> {
    v.map_values(|c: StoredClip| c@)
}

/// The clips that are kept, oldest first, and the number that the next one gets.
pub struct ClipLog {
    next_id: u64,
    clips: Vec<StoredClip>,
}

/// The most recent clips of a list.
pub open spec fn latest_clips(l: Seq<Published>) -> Seq<Published> {
    if l.len() > KEPT_CLIPS {
        l.skip(l.len() - KEPT_CLIPS)
    } else {
        l
    }
}

/// The event that carries a clip.
pub open spec fn clip_event(c: Published) -> EventText {
    EventText { event: Some("clip"@), data: c.text, id: Some(dec(c.id)) }
}

/// A clip as JSON.
pub open spec fn clip_json(c: Published) -> Seq<char> {
    "{\"id\":"@ + dec(c.id) + ",\"text\":"@ + json_text(c.text) + "}"@
}

/// The views of events.
pub open spec fn event_views(v: Seq<Event>) -> Seq<EventText> {
    v.map_values(|e: Event| e@)
}

impl ClipLog {
    /// The clips that are kept.
    pub closed spec fn kept(&self) -> Seq<Published> {
        views(self.clips@)
    }

    /// The number that the next clip gets.
    pub closed spec fn next_id(&self) -> nat {
        self.next_id as nat
    }

    /// No more clips are kept than may be, and their numbers rise and are all used up.
    pub open spec fn wf(&self) -> bool {
        &&& self.kept().len() <= KEPT_CLIPS
        &&& forall|i: int, j: int|
            0 <= i < j < self.kept().len() ==> (#[trigger] self.kept()[i]).id < (
            #[trigger] self.kept()[j]).id
        &&& forall|i: int|
            0 <= i < self.kept().len() ==> (#[trigger] self.kept()[i]).id < self.next_id()
    }

    /// Nothing has been published.
    pub fn new() -> (l: ClipLog)
        ensures
            l.wf(),
            l.kept() == Seq::<Published>::empty(),
            l.next_id() == 0,
    {
        let l = ClipLog { next_id: 0, clips: Vec::new() };
        assert(l.kept() =~= Seq::<Published>::empty());
        l
    }

    /// Whether one more clip can be numbered.
    pub fn has_id(&self) -> (r: bool)
        ensures
            r == (self.next_id() < u64::MAX),
    {
        self.next_id < u64::MAX
    }

    /// Keep a clip and make the event that tells everyone of it. A clip that is too large is
    /// refused.
    pub fn publish(&mut self, text: &str) -> (r: Option<Event>)
        requires
            old(self).wf(),
            old(self).next_id() < u64::MAX,
        ensures
            final(self).wf(),
            r is Some <==> encode_utf8(text@).len() <= 1_048_576,
            if encode_utf8(text@).len() <= MAX_CLIP_BYTES {
                let c = Published { id: old(self).next_id(), text: text@ };
                &&& r matches Some(e) && e@ == clip_event(c)
                &&& final(self).kept() == latest_clips(old(self).kept().push(c))
                &&& final(self).next_id() == old(self).next_id() + 1
            } else {
                &&& r is None
                &&& final(self).kept() == old(self).kept()
                &&& final(self).next_id() == old(self).next_id()
            },
    {
        let bytes = text.as_bytes();
        if bytes.len() > MAX_CLIP_BYTES {
            return None;
        }
        let id: u64 = self.next_id;
        let ghost before = self.kept();
        let c = StoredClip { id, text: text.to_owned() };
        let ghost view = c@;
        self.clips.push(c);
        self.next_id = self.next_id + 1;
        assert(self.kept() =~= before.push(view));
        let len: usize = self.clips.len();
        if len > KEPT_CLIPS {
            let tail = self.clips.split_off(len - KEPT_CLIPS);
            self.clips = tail;
        }
        assert(self.kept() =~= latest_clips(before.push(view)));
        let e = Event::named("clip", text).with_id(dec_string(id).as_str());
        assert(e@ =~= clip_event(view));
        Some(e)
    }

    /// The events that bring a device that joins up to date, oldest first.
    pub fn backfill(&self) -> (v: Vec<Event>)
        ensures
            event_views(v@) == self.kept().map_values(|c: Published| clip_event(c)),
    {
        let mut v: Vec<Event> = Vec::new();
        let mut i: usize = 0;
        while i < self.clips.len()
            invariant
                i <= self.clips@.len(),
                v@.len() == i,
                forall|j: int| 0 <= j < i ==> (#[trigger] v@[j])@ == clip_event(self.clips@[j]@),
            decreases self.clips@.len() - i,
        {
            let e = Event::named("clip", self.clips[i].text.as_str()).with_id(
                dec_string(self.clips[i].id).as_str(),
            );
            assert(e@ =~= clip_event(self.clips@[i as int]@));
            v.push(e);
            i = i + 1;
        }
        assert(event_views(v@) =~= self.kept().map_values(|c: Published| clip_event(c)));
        v
    }

    /// The clips that are kept, as JSON.
    pub fn clips_json(&self) -> (r: String)
        ensures
            r@ == "{\"clips\":["@ + join(
                self.kept().map_values(|c: Published| clip_json(c)),
                ","@,
            ) + "]}"@,
    {
        let ghost l = self.kept().map_values(|c: Published| clip_json(c));
        let mut r = "{\"clips\":[".to_owned();
        let mut i: usize = 0;
        assert(l.take(0) =~= Seq::<Seq<char>>::empty());
        assert(r@ =~= "{\"clips\":["@ + join(l.take(0), ","@));
        while i < self.clips.len()
            invariant
                i <= self.clips@.len(),
                l == self.kept().map_values(|c: Published| clip_json(c)),
                r@ == "{\"clips\":["@ + join(l.take(i as int), ","@),
            decreases self.clips@.len() - i,
        {
            proof {
                let now = l.take(i + 1);
                assert(now.drop_last() =~= l.take(i as int));
                assert(now.last() == clip_json(self.clips@[i as int]@));
            }
            if i > 0 {
                r.append(",");
            }
            let mut c = "{\"id\":".to_owned();
            push_dec(&mut c, self.clips[i].id);
            c.append(",\"text\":");
            push_json(&mut c, self.clips[i].text.as_str());
            c.append("}");
            r.append(c.as_str());
            assert(r@ =~= "{\"clips\":["@ + join(l.take(i + 1), ","@));
            i = i + 1;
        }
        assert(l.take(i as int) =~= l);
        r.append("]}");
        r
    }
}

/// The reply to a published clip.
pub fn clip_reply(taken: bool) -> (r: Reply)
    ensures
        r@ == (if taken {
            plain(200, "ok"@)
        } else {
            plain(413, "clip too large"@)
        }),
{
    if taken {
        Reply::text(200, "ok")
    } else {
        Reply::text(413, "clip too large")
    }
}

// ---- Laws ----

/// A receiver reads from a clip's event the number it was published under.
pub proof fn clip_numbers_are_read_back(c: Published)
    requires
        c.id <= i64::MAX,
    ensures
        parse_signed(clip_event(c).id->0) == Some(c.id as int),
{
    lemma_dec_round_trip(c.id);
    dec_is_read_back(c.id, i64::MAX as nat);
    assert(is_digit(dec(c.id)[0]));
}

/// The number and the text of a clip can be read back from its JSON.
pub proof fn clips_are_read_back(c: Published)
    ensures
        is_object(
            clip_json(c),
            seq![("id"@, Scalar::Number(c.id)), ("text"@, Scalar::Text(c.text))],
        ),
{
    reveal_strlit("id");
    reveal_strlit("text");
    reveal_strlit("{\"id\":");
    reveal_strlit(",\"text\":");
    reveal_strlit("}");
    let one = seq![("id"@, Scalar::Number(c.id))];
    let two = one.push(("text"@, Scalar::Text(c.text)));
    assert("{\"id\":"@ =~= seq!['{', '"'] + "id"@ + seq!['"', ':']);
    assert(",\"text\":"@ =~= seq![',', '"'] + "text"@ + seq!['"', ':']);
    assert("}"@ =~= seq!['}']);
    lemma_first_member("id"@, one[0].1, "{\"id\":"@);
    lemma_next_member(one, "text"@, two[1].1, ",\"text\":"@);
    lemma_is_object(two);
    assert(two =~= seq![("id"@, Scalar::Number(c.id)), ("text"@, Scalar::Text(c.text))]);
}

/// Of the clips published in turn, the last twenty are kept, in the order published.
pub proof fn the_last_twenty_clips_are_kept(l: Seq<Published>, c: Published)
    ensures
        latest_clips(l).len() == (if l.len() < 20 {
            l.len()
        } else {
            20
        }),
        forall|i: int|
            0 <= i < latest_clips(l).len() ==> #[trigger] latest_clips(l)[latest_clips(l).len() - 1
                - i] == l[l.len() - 1 - i],
        latest_clips(latest_clips(l).push(c)) == latest_clips(l.push(c)),
{
    assert(latest_clips(latest_clips(l).push(c)) =~= latest_clips(l.push(c)));
}

} // verus!

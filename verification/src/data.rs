//! The recorder: channel registry and sample history.
//!
//! Values are of any `Copy` type `V` (the program records `f64` readings and
//! times); the recorder only stores and routes them.

use std::collections::VecDeque;
use vstd::prelude::*;

use crate::parse::{field_views, string_views, Field, FieldView, Parsed, ParsedView};
use crate::text::{append_str, decimal, decimal_string};

/// The pen color of a channel.
pub use crate::tint::palette;

verus! {

pub struct Channel<V> {
    pub name: String,
    /// The most recent reading, if any.
    pub last: Option<V>,
    pub visible: bool,
}

/// A channel as the contracts see it: its name, last reading and visibility.
pub type ChannelView<V> = (Seq<char>, Option<V>, bool);

impl<V> View for Channel<V> {
    type V = ChannelView<V>;

    open spec fn view(&self) -> ChannelView<V> {
        (self.name@, self.last, self.visible)
    }
}

pub struct Sample<V> {
    /// Seconds since the recorder started.
    pub t: V,
    /// One value per channel; `None` where a channel had no reading.
    pub v: Vec<Option<V>>,
}

/// A sample as the contracts see it: its time and its values.
pub type SampleView<V> = (V, Seq<Option<V>>);

impl<V> View for Sample<V> {
    type V = SampleView<V>;

    open spec fn view(&self) -> SampleView<V> {
        (self.t, self.v@)
    }
}

impl<V: Copy> Sample<V> {
    /// The reading of channel `ch`, if it had one.
    pub fn get(&self, ch: usize) -> (r: Option<V>)
        ensures
            r == (if ch < self.v.len() {
                self.v@[ch as int]
            } else {
                None
            }),
    {
        if ch < self.v.len() {
            self.v[ch]
        } else {
            None
        }
    }
}

pub open spec fn channel_views<V>(s: Seq<Channel<V>>) -> Seq<ChannelView<V>> {
    s.map_values(|c: Channel<V>| c@)
}

pub open spec fn sample_views<V>(s: Seq<Sample<V>>) -> Seq<SampleView<V>> {
    s.map_values(|x: Sample<V>| x@)
}

/// The name a channel gets when nothing names it: `ch1`, `ch2`, ...
pub open spec fn default_name(i: nat) -> Seq<char> {
    seq!['c', 'h'] + decimal(i + 1)
}

pub open spec fn fresh_channel<V>(name: Seq<char>) -> ChannelView<V> {
    (name, None, true)
}

/// `chans`, with default channels added until there are at least `n`.
pub open spec fn grow<V>(chans: Seq<ChannelView<V>>, n: nat) -> Seq<ChannelView<V>> {
    Seq::new(
        if n > chans.len() {
            n
        } else {
            chans.len()
        },
        |i: int|
            if i < chans.len() {
                chans[i]
            } else {
                fresh_channel(default_name(i as nat))
            },
    )
}

/// A header's words name the channels from `fixed` on; channels are added as needed.
pub open spec fn apply_header<V>(chans: Seq<ChannelView<V>>, words: Seq<Seq<char>>, fixed: nat) -> Seq<
    ChannelView<V>,
> {
    let g = grow(chans, words.len());
    Seq::new(
        g.len(),
        |i: int|
            if fixed <= i < words.len() {
                (words[i], g[i].1, g[i].2)
            } else {
                g[i]
            },
    )
}

/// The index of the first channel named `name`, or `chans.len()`.
pub open spec fn find_channel<V>(chans: Seq<ChannelView<V>>, name: Seq<char>) -> int
    decreases chans.len(),
{
    if chans.len() == 0 {
        0
    } else if chans[0].0 == name {
        0
    } else {
        1 + find_channel(chans.drop_first(), name)
    }
}

/// The state of routing one line's fields: the channels, the sample's values, and
/// the next positional channel.
pub ghost struct Routing<V> {
    pub chans: Seq<ChannelView<V>>,
    pub vals: Seq<Option<V>>,
    pub pos: nat,
}

/// Where a field goes: a named field to the channel of that name (added if new),
/// a positional one to the next position (channels added up to it).
pub open spec fn put_field<V>(st: Routing<V>, f: FieldView<V>) -> Routing<V> {
    let (idx, chans, pos) = match f.0 {
        Some(k) => {
            let j = find_channel(st.chans, k);
            if j < st.chans.len() {
                (j, st.chans, st.pos)
            } else {
                (st.chans.len() as int, st.chans.push(fresh_channel(k)), st.pos)
            }
        },
        None => (st.pos as int, grow(st.chans, st.pos + 1), st.pos + 1),
    };
    let vals = if idx < st.vals.len() {
        st.vals
    } else {
        st.vals + Seq::new((idx + 1 - st.vals.len()) as nat, |i: int| None::<V>)
    };
    Routing {
        chans: chans.update(idx, (chans[idx].0, Some(f.1), chans[idx].2)),
        vals: vals.update(idx, Some(f.1)),
        pos,
    }
}

pub open spec fn put_fields<V>(st: Routing<V>, fs: Seq<FieldView<V>>) -> Routing<V>
    decreases fs.len(),
{
    if fs.len() == 0 {
        st
    } else {
        put_field(put_fields(st, fs.drop_last()), fs.last())
    }
}

pub open spec fn routing_start<V>(chans: Seq<ChannelView<V>>) -> Routing<V> {
    Routing { chans, vals: Seq::new(chans.len(), |i: int| None::<V>), pos: 0 }
}

/// The history after recording `s`: the oldest sample goes once there are more
/// than `limit`.
pub open spec fn record<V>(hist: Seq<SampleView<V>>, s: SampleView<V>, limit: nat) -> Seq<
    SampleView<V>,
> {
    let h = hist.push(s);
    if h.len() > limit {
        h.drop_first()
    } else {
        h
    }
}

/// The indices of the visible channels among the first `n`, in order.
pub open spec fn shown<V>(chans: Seq<ChannelView<V>>, n: nat) -> Seq<usize>
    decreases n,
{
    if n == 0 {
        Seq::empty()
    } else if chans[n - 1].2 {
        shown(chans, (n - 1) as nat).push((n - 1) as usize)
    } else {
        shown(chans, (n - 1) as nat)
    }
}

pub struct Recorder<V> {
    pub channels: Vec<Channel<V>>,
    pub history: VecDeque<Sample<V>>,
    max_history: usize,
    /// Channels named on the command line; input headers don't rename these.
    fixed_names: usize,
    pub total: u64,
}

impl<V: Copy> Recorder<V> {
    /// The number of samples kept.
    pub closed spec fn limit(&self) -> nat {
        self.max_history as nat
    }

    /// The number of channels named when the recorder was made.
    pub closed spec fn fixed(&self) -> nat {
        self.fixed_names as nat
    }

    /// The channels.
    pub closed spec fn chans(&self) -> Seq<ChannelView<V>> {
        channel_views(self.channels@)
    }

    /// The samples kept, oldest first.
    pub closed spec fn samples(&self) -> Seq<SampleView<V>> {
        sample_views(self.history@)
    }

    /// The number of samples ever recorded.
    pub closed spec fn count(&self) -> nat {
        self.total as nat
    }

    /// The history fits its limit, the limit is at least 2, and the named channels exist.
    pub closed spec fn wf(&self) -> bool {
        &&& self.history@.len() <= self.max_history
        &&& self.max_history >= 2
        &&& self.fixed_names <= self.channels@.len()
    }

    pub proof fn lemma_wf(&self)
        requires
            self.wf(),
        ensures
            self.samples().len() <= self.limit(),
            self.limit() >= 2,
            self.fixed() <= self.chans().len(),
    {
    }

    pub fn new(names: Vec<String>, max_history: usize) -> (r: Self)
        ensures
            r.wf(),
            r.chans() == string_views(names@).map_values(|n: Seq<char>| fresh_channel::<V>(n)),
            r.samples() == Seq::<SampleView<V>>::empty(),
            r.limit() == (if max_history > 2 {
                max_history
            } else {
                2
            }),
            r.fixed() == names.len(),
            r.count() == 0,
    {
        let fixed_names = names.len();
        let mut channels: Vec<Channel<V>> = Vec::new();
        let mut i: usize = 0;
        while i < names.len()
            invariant
                i <= names.len(),
                channels@.len() == i,
                forall|k: int|
                    0 <= k < i ==> (#[trigger] channels@[k])@ == fresh_channel::<V>(names@[k]@),
            decreases names.len() - i,
        {
            channels.push(Channel { name: names[i].clone(), last: None, visible: true });
            i = i + 1;
        }
        let r = Recorder {
            channels,
            history: VecDeque::new(),
            max_history: if max_history > 2 {
                max_history
            } else {
                2
            },
            fixed_names,
            total: 0,
        };
        assert(r.chans() =~= string_views(names@).map_values(|n: Seq<char>| fresh_channel::<V>(n)));
        assert(r.samples() =~= Seq::<SampleView<V>>::empty());
        r
    }

    pub fn clear(&mut self)
        requires
            old(self).wf(),
        ensures
            final(self).wf(),
            final(self).samples() == Seq::<SampleView<V>>::empty(),
            final(self).chans() == old(self).chans(),
            final(self).count() == old(self).count(),
            final(self).limit() == old(self).limit(),
            final(self).fixed() == old(self).fixed(),
    {
        self.history.clear();
        assert(self.samples() =~= Seq::<SampleView<V>>::empty());
    }

    /// Show or hide channel `i`; returns whether there is such a channel.
    pub fn toggle(&mut self, i: usize) -> (r: bool)
        requires
            old(self).wf(),
        ensures
            final(self).wf(),
            r == (i < old(self).chans().len()),
            final(self).chans() == if r {
                old(self).chans().update(
                    i as int,
                    (old(self).chans()[i as int].0, old(self).chans()[i as int].1, !old(self).chans()[i as int].2),
                )
            } else {
                old(self).chans()
            },
            final(self).samples() == old(self).samples(),
            final(self).count() == old(self).count(),
            final(self).limit() == old(self).limit(),
            final(self).fixed() == old(self).fixed(),
    {
        if i < self.channels.len() {
            let mut ch = self.channels.remove(i);
            ch.visible = !ch.visible;
            self.channels.insert(i, ch);
            assert(self.chans() =~= old(self).chans().update(
                i as int,
                (old(self).chans()[i as int].0, old(self).chans()[i as int].1, !old(self).chans()[i as int].2),
            ));
            true
        } else {
            false
        }
    }

    /// The channels shown, in order.
    pub fn visible(&self) -> (r: Vec<usize>)
        ensures
            r@ == shown(self.chans(), self.chans().len()),
    {
        let mut r: Vec<usize> = Vec::new();
        let mut i: usize = 0;
        while i < self.channels.len()
            invariant
                i <= self.channels@.len(),
                r@ == shown(self.chans(), i as nat),
            decreases self.channels.len() - i,
        {
            if self.channels[i].visible {
                r.push(i);
            }
            i = i + 1;
        }
        r
    }

    /// The name `ch{n}` of the `n`-th channel, counting from 1.
    fn default_channel_name(i: usize) -> (s: String)
        requires
            i < usize::MAX,
        ensures
            s@ == default_name(i as nat),
    {
        let mut s = String::new();
        append_str(&mut s, "ch");
        let n = decimal_string(i as u64 + 1);
        append_str(&mut s, n.as_str());
        proof {
            reveal_strlit("ch");
        }
        assert(s@ =~= default_name(i as nat));
        s
    }

    /// Get channel `i`, creating it (and any before it) if needed.
    fn channel(&mut self, i: usize)
        requires
            old(self).wf(),
            i < usize::MAX,
        ensures
            final(self).wf(),
            final(self).chans() == grow(old(self).chans(), (i + 1) as nat),
            i < final(self).chans().len(),
            final(self).samples() == old(self).samples(),
            final(self).count() == old(self).count(),
            final(self).limit() == old(self).limit(),
            final(self).fixed() == old(self).fixed(),
    {
        let ghost start = self.chans();
        assert(start =~= grow(start, start.len()));
        while self.channels.len() <= i
            invariant
                self.wf(),
                i < usize::MAX,
                start.len() <= self.channels@.len(),
                self.channels@.len() <= i + 1 || self.channels@.len() == start.len(),
                self.chans() == grow(start, self.channels@.len() as nat),
                self.samples() == old(self).samples(),
                self.count() == old(self).count(),
                self.limit() == old(self).limit(),
                self.fixed() == old(self).fixed(),
            decreases i + 1 - self.channels.len(),
        {
            let name = Self::default_channel_name(self.channels.len());
            let ghost before = self.chans();
            self.channels.push(Channel { name, last: None, visible: true });
            assert(self.chans() =~= before.push(fresh_channel(default_name(before.len()))));
            assert(self.chans() =~= grow(start, self.channels@.len() as nat));
        }
        assert(self.chans() =~= grow(start, (i + 1) as nat));
    }

    fn channel_named(&mut self, name: &String) -> (idx: usize)
        requires
            old(self).wf(),
        ensures
            final(self).wf(),
            idx == (if find_channel(old(self).chans(), name@) < old(self).chans().len() {
                find_channel(old(self).chans(), name@)
            } else {
                old(self).chans().len() as int
            }),
            final(self).chans() == (if find_channel(old(self).chans(), name@) < old(
                self,
            ).chans().len() {
                old(self).chans()
            } else {
                old(self).chans().push(fresh_channel(name@))
            }),
            idx < final(self).chans().len(),
            final(self).samples() == old(self).samples(),
            final(self).count() == old(self).count(),
            final(self).limit() == old(self).limit(),
            final(self).fixed() == old(self).fixed(),
    {
        let ghost cs = self.chans();
        let mut j: usize = 0;
        while j < self.channels.len()
            invariant
                j <= self.channels@.len(),
                cs == self.chans(),
                *self == *old(self),
                self.wf(),
                forall|k: int| 0 <= k < j ==> cs[k].0 != name@,
            decreases self.channels.len() - j,
        {
            if self.channels[j].name == *name {
                proof {
                    lemma_find_channel(cs, name@, j as int);
                }
                return j;
            }
            j = j + 1;
        }
        proof {
            lemma_find_channel(cs, name@, j as int);
        }
        self.channels.push(Channel { name: name.clone(), last: None, visible: true });
        assert(self.chans() =~= cs.push(fresh_channel(name@)));
        self.channels.len() - 1
    }
}

impl<V: Copy> Recorder<V> {
    /// A header before the first sample names the channels from `fixed()` on.
    fn apply_header(&mut self, names: &Vec<String>)
        requires
            old(self).wf(),
        ensures
            final(self).wf(),
            final(self).chans() == apply_header(
                old(self).chans(),
                string_views(names@),
                old(self).fixed(),
            ),
            final(self).samples() == old(self).samples(),
            final(self).count() == old(self).count(),
            final(self).limit() == old(self).limit(),
            final(self).fixed() == old(self).fixed(),
    {
        let ghost start = self.chans();
        let ghost words = string_views(names@);
        assert(start.len() == self.channels@.len());
        assert(words.len() == names@.len());
        if self.fixed_names >= names.len() {
            assert(apply_header(start, words, self.fixed()) =~= start);
            return;
        }
        let mut i = self.fixed_names;
        assert(start =~= apply_header(start, words.take(i as int), self.fixed()));
        while i < names.len()
            invariant
                self.wf(),
                self.fixed_names <= i <= names.len(),
                words == string_views(names@),
                start.len() >= self.fixed(),
                self.chans() == apply_header(start, words.take(i as int), self.fixed()),
                self.samples() == old(self).samples(),
                self.count() == old(self).count(),
                self.limit() == old(self).limit(),
                self.fixed() == old(self).fixed(),
            decreases names.len() - i,
        {
            let ghost prev = self.chans();
            self.channel(i);
            let ghost grown = self.chans();
            assert(grown == grow(prev, (i + 1) as nat));
            self.channels[i].name = names[i].clone();
            let ghost renamed = grown.update(i as int, (words[i as int], grown[i as int].1, grown[i as int].2));
            assert(self.chans() =~= renamed);
            assert(renamed =~= apply_header(start, words.take(i + 1), self.fixed()));
            i = i + 1;
        }
        if self.fixed_names < names.len() {
            assert(words.take(names.len() as int) =~= words);
        } else {
            assert(apply_header(start, words, self.fixed()) =~= apply_header(
                start,
                words.take(i as int),
                self.fixed(),
            ));
        }
    }

    /// Takes in a parsed line without recording it: a header names channels
    /// (only before the first sample), and values are routed to channels, which
    /// are added as needed. Returns the values of the sample the line makes, if
    /// it makes one.
    pub fn take_line(&mut self, parsed: Parsed<V>) -> (v: Option<Vec<Option<V>>>)
        requires
            old(self).wf(),
        ensures
            final(self).wf(),
            final(self).limit() == old(self).limit(),
            final(self).fixed() == old(self).fixed(),
            final(self).samples() == old(self).samples(),
            final(self).count() == old(self).count(),
            match parsed@ {
                ParsedView::Empty => {
                    &&& v is None
                    &&& final(self).chans() == old(self).chans()
                },
                ParsedView::Header(words) => {
                    &&& v is None
                    &&& final(self).chans() == if old(self).count() == 0 {
                        apply_header(old(self).chans(), words, old(self).fixed())
                    } else {
                        old(self).chans()
                    }
                },
                ParsedView::Values(fields) => {
                    let st = put_fields(routing_start(old(self).chans()), fields);
                    &&& v matches Some(vals) && vals@ == st.vals
                    &&& final(self).chans() == st.chans
                },
            },
    {
        match parsed {
            Parsed::Empty => None,
            Parsed::Header(names) => {
                if self.total == 0 {
                    self.apply_header(&names);
                }
                None
            },
            Parsed::Values(fields) => Some(self.route(&fields)),
        }
    }

    /// Records a sample at time `t` with values `v`; the oldest sample goes when
    /// the history is over its limit.
    pub fn commit(&mut self, t: V, v: Vec<Option<V>>)
        requires
            old(self).wf(),
            old(self).count() < u64::MAX,
        ensures
            final(self).wf(),
            final(self).limit() == old(self).limit(),
            final(self).fixed() == old(self).fixed(),
            final(self).chans() == old(self).chans(),
            final(self).samples() == record(old(self).samples(), (t, v@), old(self).limit()),
            final(self).count() == old(self).count() + 1,
    {
        let ghost before = self.samples();
        let ghost vals = v@;
        self.history.push_back(Sample { t, v });
        if self.history.len() > self.max_history {
            self.history.pop_front();
        }
        assert(self.samples() =~= record(before, (t, vals), self.limit()));
        self.total = self.total + 1;
    }

    /// Record one parsed line taken at time `t`. Returns true if a sample was added.
    ///
    /// A header names channels only before the first sample; values go to their
    /// channels and make a sample.
    pub fn ingest(&mut self, t: V, parsed: Parsed<V>) -> (r: bool)
        requires
            old(self).wf(),
            parsed@ is Values ==> old(self).count() < u64::MAX,
        ensures
            final(self).wf(),
            final(self).limit() == old(self).limit(),
            final(self).fixed() == old(self).fixed(),
            match parsed@ {
                ParsedView::Empty => {
                    &&& !r
                    &&& final(self).chans() == old(self).chans()
                    &&& final(self).samples() == old(self).samples()
                    &&& final(self).count() == old(self).count()
                },
                ParsedView::Header(words) => {
                    &&& !r
                    &&& final(self).chans() == if old(self).count() == 0 {
                        apply_header(old(self).chans(), words, old(self).fixed())
                    } else {
                        old(self).chans()
                    }
                    &&& final(self).samples() == old(self).samples()
                    &&& final(self).count() == old(self).count()
                },
                ParsedView::Values(fields) => {
                    let st = put_fields(routing_start(old(self).chans()), fields);
                    &&& r
                    &&& final(self).chans() == st.chans
                    &&& final(self).samples() == record(
                        old(self).samples(),
                        (t, st.vals),
                        old(self).limit(),
                    )
                    &&& final(self).count() == old(self).count() + 1
                },
            },
    {
        match self.take_line(parsed) {
            Some(v) => {
                self.commit(t, v);
                true
            },
            None => false,
        }
    }

    /// Routes a line's fields to channels; returns the sample's values.
    fn route(&mut self, fields: &Vec<Field<V>>) -> (v: Vec<Option<V>>)
        requires
            old(self).wf(),
        ensures
            final(self).wf(),
            final(self).chans() == put_fields(routing_start(old(self).chans()), field_views(fields@)).chans,
            v@ == put_fields(routing_start(old(self).chans()), field_views(fields@)).vals,
            final(self).samples() == old(self).samples(),
            final(self).count() == old(self).count(),
            final(self).limit() == old(self).limit(),
            final(self).fixed() == old(self).fixed(),
    {
        let ghost start = routing_start(self.chans());
        let ghost fs = field_views(fields@);
        let mut v: Vec<Option<V>> = Vec::new();
        let n = self.channels.len();
        while v.len() < n
            invariant
                v.len() <= n == self.channels@.len(),
                forall|k: int| 0 <= k < v.len() ==> v@[k] is None,
            decreases n - v.len(),
        {
            v.push(None);
        }
        assert(v@ =~= start.vals);
        let mut pos: usize = 0;
        let mut i: usize = 0;
        assert(fs.take(0) =~= Seq::<FieldView<V>>::empty());
        while i < fields.len()
            invariant
                self.wf(),
                i <= fields.len(),
                pos <= i,
                fs == field_views(fields@),
                self.chans() == put_fields(start, fs.take(i as int)).chans,
                v@ == put_fields(start, fs.take(i as int)).vals,
                pos == put_fields(start, fs.take(i as int)).pos,
                self.samples() == old(self).samples(),
                self.count() == old(self).count(),
                self.limit() == old(self).limit(),
                self.fixed() == old(self).fixed(),
            decreases fields.len() - i,
        {
            let ghost st = put_fields(start, fs.take(i as int));
            let ghost f = fs[i as int];
            assert(fs.take(i + 1).drop_last() =~= fs.take(i as int));
            assert(fs.take(i + 1).last() == f);
            assert(f == fields@[i as int]@);
            let idx = match &fields[i].key {
                Some(k) => self.channel_named(k),
                None => {
                    let p = pos;
                    pos = pos + 1;
                    self.channel(p);
                    p
                },
            };
            let ghost padded_from = v@;
            while v.len() <= idx
                invariant
                    padded_from.len() <= idx + 1 ==> v.len() <= idx + 1,
                    padded_from.len() > idx ==> v.len() == padded_from.len(),
                    padded_from.len() <= v.len(),
                    v@ == padded_from + Seq::new((v.len() - padded_from.len()) as nat, |k: int| None::<V>),
                decreases idx + 1 - v.len(),
            {
                v.push(None);
                assert(v@ =~= padded_from + Seq::new((v.len() - padded_from.len()) as nat, |k: int| None::<V>));
            }
            proof {
                if padded_from.len() > idx {
                    assert(v@ =~= padded_from);
                }
            }
            let value = fields[i].value;
            v.set(idx, Some(value));
            self.channels[idx].last = Some(value);
            let ghost next = put_field(st, f);
            assert(self.chans() =~= next.chans);
            assert(v@ =~= next.vals);
            i = i + 1;
        }
        assert(fs.take(fields.len() as int) =~= fs);
        v
    }
}

/// `,name` for each channel, in order.
pub open spec fn csv_names<V>(chans: Seq<ChannelView<V>>) -> Seq<char>
    decreases chans.len(),
{
    if chans.len() == 0 {
        Seq::empty()
    } else {
        csv_names(chans.drop_last()) + seq![','] + chans.last().0
    }
}

impl<V: Copy> Recorder<V> {
    /// The header line of the CSV log: `unix_time,elapsed`, then the channel names.
    pub fn csv_header(&self) -> (s: String)
        ensures
            s@ == "unix_time,elapsed"@ + csv_names(self.chans()),
    {
        let mut s = String::new();
        append_str(&mut s, "unix_time,elapsed");
        let ghost head = s@;
        let mut i: usize = 0;
        while i < self.channels.len()
            invariant
                i <= self.channels@.len(),
                head == "unix_time,elapsed"@,
                s@ == head + csv_names(self.chans().take(i as int)),
            decreases self.channels.len() - i,
        {
            append_str(&mut s, ",");
            append_str(&mut s, self.channels[i].name.as_str());
            proof {
                reveal_strlit(",");
                let t = self.chans().take(i + 1);
                assert(t.drop_last() =~= self.chans().take(i as int));
                assert(t.last() == self.chans()[i as int]);
            }
            assert(s@ =~= head + csv_names(self.chans().take(i + 1)));
            i = i + 1;
        }
        assert(self.chans().take(i as int) =~= self.chans());
        s
    }
}

pub proof fn lemma_find_channel<V>(chans: Seq<ChannelView<V>>, name: Seq<char>, i: int)
    requires
        0 <= i <= chans.len(),
        forall|k: int| 0 <= k < i ==> chans[k].0 != name,
        i == chans.len() || chans[i].0 == name,
    ensures
        find_channel(chans, name) == i,
    decreases i,
{
    if i > 0 {
        let t = chans.drop_first();
        assert forall|k: int| 0 <= k < i - 1 implies t[k].0 != name by {
            assert(t[k] == chans[k + 1]);
        }
        if i < chans.len() {
            assert(t[i - 1] == chans[i]);
        }
        lemma_find_channel(t, name, i - 1);
    }
}


/// A header names channels only from the first one not named on the command
/// line: those keep their names, no channel is removed, and each later channel
/// the header reaches takes its word.
pub proof fn lemma_header_keeps_names<V>(chans: Seq<ChannelView<V>>, words: Seq<Seq<char>>, fixed: nat)
    ensures
        apply_header(chans, words, fixed).len() >= chans.len(),
        apply_header(chans, words, fixed).len() >= words.len(),
        forall|i: int| 0 <= i < fixed && i < chans.len() ==> #[trigger] apply_header(chans, words, fixed)[i] == chans[i],
        forall|i: int|
            fixed <= i < words.len() ==> (#[trigger] apply_header(chans, words, fixed)[i]).0 == words[i],
{
}

proof fn lemma_find_bounds<V>(chans: Seq<ChannelView<V>>, name: Seq<char>)
    ensures
        0 <= find_channel(chans, name) <= chans.len(),
    decreases chans.len(),
{
    if chans.len() > 0 && chans[0].0 != name {
        lemma_find_bounds(chans.drop_first(), name);
    }
}

/// The channel a field goes to.
spec fn field_target<V>(st: Routing<V>, f: FieldView<V>) -> int {
    match f.0 {
        Some(k) => {
            let j = find_channel(st.chans, k);
            if j < st.chans.len() {
                j
            } else {
                st.chans.len() as int
            }
        },
        None => st.pos as int,
    }
}

proof fn lemma_put_field_keeps<V>(st: Routing<V>, f: FieldView<V>)
    requires
        st.vals.len() == st.chans.len(),
    ensures
        put_field(st, f).chans.len() >= st.chans.len(),
        put_field(st, f).vals.len() == put_field(st, f).chans.len(),
        0 <= field_target(st, f) < put_field(st, f).chans.len(),
        put_field(st, f).vals[field_target(st, f)] == Some(f.1),
        put_field(st, f).chans[field_target(st, f)].1 == Some(f.1),
        forall|i: int|
            0 <= i < st.chans.len() ==> (#[trigger] put_field(st, f).chans[i]).0 == st.chans[i].0 && put_field(
                st,
                f,
            ).chans[i].2 == st.chans[i].2,
        forall|i: int|
            0 <= i < put_field(st, f).vals.len() && i != field_target(st, f) ==> #[trigger] put_field(st, f).vals[i]
                == if i < st.vals.len() {
                st.vals[i]
            } else {
                None
            },
        forall|i: int|
            0 <= i < st.chans.len() && i != field_target(st, f) ==> #[trigger] put_field(st, f).chans[i].1
                == st.chans[i].1,
{
    let idx = field_target(st, f);
    match f.0 {
        Some(k) => {
            lemma_find_bounds(st.chans, k);
        },
        None => {},
    }
    let chans = match f.0 {
        Some(k) => {
            if find_channel(st.chans, k) < st.chans.len() {
                st.chans
            } else {
                st.chans.push(fresh_channel(k))
            }
        },
        None => grow(st.chans, st.pos + 1),
    };
    assert(chans.len() >= st.chans.len());
    assert(0 <= idx < chans.len());
    assert forall|i: int| 0 <= i < st.chans.len() implies chans[i] == st.chans[i] by {}
}

/// Routing a line's fields never renames, hides or removes a channel; the new
/// sample has one value per channel, and each value it has is now its
/// channel's last reading.
pub proof fn lemma_routing_keeps_channels<V>(chans: Seq<ChannelView<V>>, fs: Seq<FieldView<V>>)
    ensures
        put_fields(routing_start(chans), fs).chans.len() >= chans.len(),
        put_fields(routing_start(chans), fs).vals.len() == put_fields(routing_start(chans), fs).chans.len(),
        forall|i: int|
            0 <= i < chans.len() ==> (#[trigger] put_fields(routing_start(chans), fs).chans[i]).0 == chans[i].0
                && put_fields(routing_start(chans), fs).chans[i].2 == chans[i].2,
        forall|i: int|
            0 <= i < put_fields(routing_start(chans), fs).vals.len() && (#[trigger] put_fields(
                routing_start(chans),
                fs,
            ).vals[i]) is Some ==> put_fields(routing_start(chans), fs).chans[i].1 == put_fields(
                routing_start(chans),
                fs,
            ).vals[i],
    decreases fs.len(),
{
    let st0 = routing_start(chans);
    if fs.len() > 0 {
        lemma_routing_keeps_channels(chans, fs.drop_last());
        let st = put_fields(st0, fs.drop_last());
        lemma_put_field_keeps(st, fs.last());
        let nx = put_field(st, fs.last());
        assert(put_fields(st0, fs) == nx);
        assert forall|i: int| 0 <= i < chans.len() implies (#[trigger] nx.chans[i]).0 == chans[i].0 && nx.chans[i].2
            == chans[i].2 by {
            assert(st.chans[i].0 == chans[i].0);
        }
        assert forall|i: int| 0 <= i < nx.vals.len() && (#[trigger] nx.vals[i]) is Some implies nx.chans[i].1
            == nx.vals[i] by {
            let idx = field_target(st, fs.last());
            if i != idx {
                assert(i < st.vals.len());
                assert(nx.vals[i] == st.vals[i]);
                assert(nx.chans[i].1 == st.chans[i].1);
            }
        }
    } else {
        assert(put_fields(st0, fs) == st0);
    }
}

/// Recording a sample keeps at most `limit` samples: the newest ones, ending
/// with the sample just recorded.
pub proof fn lemma_record_keeps_latest<V>(hist: Seq<SampleView<V>>, s: SampleView<V>, limit: nat)
    requires
        hist.len() <= limit,
        limit >= 1,
    ensures
        record(hist, s, limit).len() <= limit,
        record(hist, s, limit).len() == if hist.len() < limit {
            hist.len() + 1
        } else {
            limit
        },
        record(hist, s, limit).last() == s,
        forall|i: int|
            0 <= i < record(hist, s, limit).len() ==> #[trigger] record(hist, s, limit)[i] == hist.push(s)[i + (
            hist.len() + 1 - record(hist, s, limit).len())],
{
}

} // verus!

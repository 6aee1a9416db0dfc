//! What a write reaches beyond its own series: the destinations of compactions, the keys that the
//! series are found under, and what is to be told to the server.
use std::collections::HashMap;
use vstd::prelude::*;

use crate::common::Sample;
use crate::series::{CompactionRule, SeriesRef, SeriesView, TimeSeries};

verus! {

/// What happened to a series.
#[derive(Debug, Clone, Copy, PartialEq, Eq, Structural)]
pub enum AddEvent {
    /// Samples were added.
    Add,
    /// Samples were added to a series that others are compacted into.
    AddDest,
}

impl AddEvent {
    /// The name under which the keyspace is notified of the event.
    pub open spec fn event_name(self) -> Seq<char> {
        match self {
            AddEvent::Add => "ts.add"@,
            AddEvent::AddDest => "ts.add:dest"@,
        }
    }

    /// The name under which the keyspace is notified of the event.
    pub fn name(self) -> (r: &'static str)
        ensures
            r@ == self.event_name(),
    {
        match self {
            AddEvent::Add => "ts.add",
            AddEvent::AddDest => "ts.add:dest",
        }
    }
}

/// What went wrong without stopping a write.
#[derive(Debug, Clone, Copy, PartialEq, Eq, Structural)]
pub enum Warning {
    /// No key is known for a series that a notification is about.
    SeriesKeyNotFound,
}

impl Warning {
    /// The text of the warning.
    pub open spec fn text(self) -> Seq<char> {
        match self {
            Warning::SeriesKeyNotFound =>
                "Compaction notification failed: series key not found"@,
        }
    }

    /// The text of the warning.
    pub fn message(self) -> (r: &'static str)
        ensures
            r@ == self.text(),
    {
        match self {
            Warning::SeriesKeyNotFound => "Compaction notification failed: series key not found",
        }
    }
}

/// What is to be told to the server.
#[derive(Debug)]
pub enum Effect {
    /// Notify the keyspace of an event at a key.
    Notify { event: AddEvent, key: String },
    /// Log a warning.
    Warn(Warning),
}

/// What is to be told to the server.
pub enum EffectView {
    Notify { event: AddEvent, key: Seq<char> },
    Warn(Warning),
}

impl View for Effect {
    type V = EffectView;

    open spec fn view(&self) -> EffectView {
        match self {
            Effect::Notify { event, key } => EffectView::Notify { event: *event, key: key@ },
            Effect::Warn(warning) => EffectView::Warn(*warning),
        }
    }
}

/// What a write reaches beyond its own series.
#[derive(Debug)]
pub struct Context {
    /// The series that samples can be compacted into.
    pub series: HashMap<u64, TimeSeries>,
    /// The keys of the series.
    pub keys: HashMap<u64, String>,
    /// What is to be told to the server, in order.
    pub effects: Vec<Effect>,
}

/// What a context holds.
#[verifier::ext_equal]
pub struct ContextView {
    pub series: Map<u64, SeriesView>,
    pub keys: Map<u64, Seq<char>>,
    pub effects: Seq<EffectView>,
}

/// What a series holds, as a function.
pub open spec fn series_view() -> spec_fn(TimeSeries) -> SeriesView {
    |s: TimeSeries| s@
}

/// The characters of a text, as a function.
pub open spec fn text_view() -> spec_fn(String) -> Seq<char> {
    |s: String| s@
}

/// What is to be told to the server, as a function.
pub open spec fn effect_view() -> spec_fn(Effect) -> EffectView {
    |e: Effect| e@
}

impl View for Context {
    type V = ContextView;

    open spec fn view(&self) -> ContextView {
        ContextView {
            series: self.series@.map_values(series_view()),
            keys: self.keys@.map_values(text_view()),
            effects: self.effects@.map_values(effect_view()),
        }
    }
}

/// The sample of the bucket that still takes in samples, under the first rule for the destination
/// `dest`.
pub open spec fn open_sample(rules: Seq<CompactionRule>, dest: SeriesRef) -> Option<Sample>
    decreases rules.len(),
{
    if rules.len() == 0 {
        None
    } else if rules[0].dest_id == dest {
        match rules[0].bucket_start {
            Some(start) => Some(Sample { timestamp: start, value: rules[0].aggregator.result() }),
            None => None,
        }
    } else {
        open_sample(rules.drop_first(), dest)
    }
}

impl ContextView {
    /// The sample of the bucket of `series` that still takes in samples from the series it is
    /// compacted from; none where that one is not in reach.
    pub open spec fn latest_sample(self, series: SeriesView) -> Option<Sample> {
        match series.src_series {
            Some(source) => if self.series.contains_key(source) {
                open_sample(self.series[source].rules, series.id)
            } else {
                None
            },
            None => None,
        }
    }

    /// Whether the parts of every series fit together.
    pub open spec fn wf(self) -> bool {
        &&& self.series.dom().finite()
        &&& forall|id: u64| #[trigger] self.series.contains_key(id) ==> self.series[id].wf()
            && self.series[id].chunks.len() <= usize::MAX
    }

    /// The context without the series `id`.
    pub open spec fn without(self, id: SeriesRef) -> ContextView {
        ContextView { series: self.series.remove(id), ..self }
    }

    /// The context with `series` under `id`.
    pub open spec fn with(self, id: SeriesRef, series: SeriesView) -> ContextView {
        ContextView { series: self.series.insert(id, series), ..self }
    }

    /// What is told to the server where something happened to the series `id`.
    pub open spec fn effect_of(self, event: AddEvent, id: SeriesRef) -> EffectView {
        if self.keys.contains_key(id) {
            EffectView::Notify { event, key: self.keys[id] }
        } else {
            EffectView::Warn(Warning::SeriesKeyNotFound)
        }
    }

    /// The context after the server is told of what happened to the series `ids`.
    pub open spec fn notified(self, event: AddEvent, ids: Seq<SeriesRef>) -> ContextView {
        ContextView {
            effects: self.effects + ids.map_values(|id: SeriesRef| self.effect_of(event, id)),
            ..self
        }
    }
}

impl Context {
    /// A context that reaches nothing.
    pub fn dummy() -> (r: Self)
        ensures
            r@.wf(),
            r@.series == Map::<u64, SeriesView>::empty(),
            r@.keys == Map::<u64, Seq<char>>::empty(),
            r@.effects == Seq::<EffectView>::empty(),
    {
        broadcast use vstd::std_specs::hash::group_hash_axioms;

        let r: Context = Context {
            series: HashMap::new(),
            keys: HashMap::new(),
            effects: Vec::new(),
        };
        assert(r@.series =~= Map::<u64, SeriesView>::empty());
        assert(r@.keys =~= Map::<u64, Seq<char>>::empty());
        r
    }

    /// The sample of the bucket of `series` that still takes in samples.
    pub fn get_latest_compaction_sample(&self, series: &TimeSeries) -> (r: Option<Sample>)
        ensures
            r == self@.latest_sample(series@),
    {
        broadcast use vstd::std_specs::hash::group_hash_axioms;

        let source_id: SeriesRef = match series.src_series {
            Some(id) => id,
            None => return None,
        };
        let source: &TimeSeries = match self.series.get(&source_id) {
            Some(source) => source,
            None => return None,
        };
        let ghost rules = source.rules@;
        assert(self@.latest_sample(series@) == open_sample(rules, series.id));
        let mut i: usize = 0;
        assert(rules.skip(0) =~= rules);
        while i < source.rules.len()
            invariant
                i <= rules.len(),
                rules == source.rules@,
                self@.latest_sample(series@) == open_sample(rules, series.id),
                open_sample(rules.skip(i as int), series.id) == open_sample(rules, series.id),
            decreases rules.len() - i,
        {
            let rule: CompactionRule = source.rules[i];
            assert(rules.skip(i as int).drop_first() =~= rules.skip(i + 1));
            if rule.dest_id == series.id {
                return match rule.bucket_start {
                    Some(start) => Some(Sample::new(start, rule.aggregator.finalize())),
                    None => None,
                };
            }
            i = i + 1;
        }
        None
    }

    /// Takes out the series `id`, where there is one.
    pub fn get_destination_series(&mut self, id: SeriesRef) -> (r: Option<TimeSeries>)
        ensures
            final(self)@ == old(self)@.without(id),
            match r {
                Some(series) => old(self)@.series.contains_key(id) && series@ == old(
                    self,
                )@.series[id],
                None => !old(self)@.series.contains_key(id),
            },
    {
        broadcast use vstd::std_specs::hash::group_hash_axioms;

        let r: Option<TimeSeries> = self.series.remove(&id);
        assert(self@.series =~= old(self)@.series.remove(id));
        r
    }

    /// Puts a series in under `id`.
    pub fn put_series(&mut self, id: SeriesRef, series: TimeSeries)
        ensures
            final(self)@ == old(self)@.with(id, series@),
    {
        broadcast use vstd::std_specs::hash::group_hash_axioms;

        let ghost view = series@;
        self.series.insert(id, series);
        assert(self@.series =~= old(self)@.series.insert(id, view));
    }

    /// Tells the server what happened to the series `ids`, each under its key.
    pub fn notify_added(&mut self, event: AddEvent, ids: &[SeriesRef])
        ensures
            final(self)@ == old(self)@.notified(event, ids@),
    {
        broadcast use vstd::std_specs::hash::group_hash_axioms;

        let ghost start = self@;
        let ghost f = |id: SeriesRef| start.effect_of(event, id);
        let mut i: usize = 0;
        while i < ids.len()
            invariant
                i <= ids@.len(),
                start == old(self)@,
                f == (|id: SeriesRef| start.effect_of(event, id)),
                self@.series == start.series,
                self@.keys == start.keys,
                self@.effects == start.effects + ids@.take(i as int).map_values(f),
            decreases ids@.len() - i,
        {
            broadcast use vstd::std_specs::hash::group_hash_axioms;

            let id: SeriesRef = ids[i];
            let ghost before = self@.effects;
            let effect: Effect = match self.keys.get(&id) {
                Some(key) => Effect::Notify { event, key: key.clone() },
                None => Effect::Warn(Warning::SeriesKeyNotFound),
            };
            let ghost shown = effect@;
            self.effects.push(effect);
            assert(self@.effects =~= before.push(shown));
            assert(ids@.take(i + 1) =~= ids@.take(i as int).push(id));
            assert(ids@.take(i + 1).map_values(f) =~= ids@.take(i as int).map_values(f).push(
                f(id),
            ));
            assert(before.push(shown) =~= start.effects + ids@.take(i + 1).map_values(f));
            i = i + 1;
        }
        assert(ids@.take(i as int) =~= ids@);
    }
}

} // verus!

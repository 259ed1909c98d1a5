use crate::structure::{lists, PerMap};
use crate::tracer_types::{CacheEntry, Message};
use vstd::prelude::*;
use vstd::string::StringExecFns;

verus! {

/// Whether a parameter that an entry saw is as the input is now.
#[derive(Clone, Copy, Debug, PartialEq, Eq)]
pub enum Freshness {
    Fresh,
    Stale,
}

/// A parameter that an entry saw.
pub struct WorldEntry {
    pub freshness: Freshness,
    pub key: String,
    pub fingerprint: String,
}

pub struct WorldMap(pub Vec<WorldEntry>);

/// A query that a body ran.
pub struct DepsEntry {
    pub key: String,
    pub fingerprint: String,
}

pub struct DepsMap(pub Vec<DepsEntry>);

/// An entry of the cache at one moment of a trace.
pub struct CacheEntryDetail {
    pub value: String,
    pub fingerprint: String,
    pub world_state: WorldMap,
    pub direct_world_state: WorldMap,
    pub deps_state: DepsMap,
}

pub struct KeyedEntry {
    pub key: String,
    pub entry: CacheEntryDetail,
}

/// The cache at one moment of a trace.
pub struct Snapshot(pub Vec<KeyedEntry>);

/// One operation of a chapter.
pub struct OpHead {
    pub id: usize,
    pub desc: String,
    pub is_comment: bool,
}

/// The part of a trace that belongs to one value of the input.
pub struct Chapter {
    pub id: usize,
    pub data: String,
    pub fingerprint: String,
}

pub struct ChapterDetail {
    pub head: Chapter,
    pub ops: Vec<OpHead>,
}

/// What a `WorldEntry` says.
pub struct WorldView {
    pub fresh: bool,
    pub key: Seq<char>,
    pub fingerprint: Seq<char>,
}

/// What a `CacheEntryDetail` says.
pub struct DetailView {
    pub value: Seq<char>,
    pub fingerprint: Seq<char>,
    pub world_state: Seq<WorldView>,
    pub direct_world_state: Seq<WorldView>,
    pub deps_state: Seq<(Seq<char>, Seq<char>)>,
}

impl View for WorldEntry {
    type V = WorldView;

    open spec fn view(&self) -> WorldView {
        WorldView {
            fresh: self.freshness == Freshness::Fresh,
            key: self.key@,
            fingerprint: self.fingerprint@,
        }
    }
}

/// What a list of `WorldEntry`s says.
pub open spec fn world_views(entries: Seq<WorldEntry>) -> Seq<WorldView> {
    Seq::new(entries.len(), |i: int| entries[i]@)
}

/// What a list of `DepsEntry`s says.
pub open spec fn deps_views(entries: Seq<DepsEntry>) -> Seq<(Seq<char>, Seq<char>)> {
    Seq::new(entries.len(), |i: int| (entries[i].key@, entries[i].fingerprint@))
}

impl View for CacheEntryDetail {
    type V = DetailView;

    open spec fn view(&self) -> DetailView {
        DetailView {
            value: self.value@,
            fingerprint: self.fingerprint@,
            world_state: world_views(self.world_state.0@),
            direct_world_state: world_views(self.direct_world_state.0@),
            deps_state: deps_views(self.deps_state.0@),
        }
    }
}

/// The entries of a state with the freshness that the fingerprint of the
/// input gives them.
pub open spec fn judged(state: Seq<(String, String)>, input: Seq<char>) -> Seq<WorldView> {
    Seq::new(
        state.len(),
        |i: int| WorldView { fresh: state[i].1@ == input, key: state[i].0@, fingerprint: state[i].1@ },
    )
}

/// The entries of a state as they are.
pub open spec fn plain(state: Seq<(String, String)>) -> Seq<(Seq<char>, Seq<char>)> {
    Seq::new(state.len(), |i: int| (state[i].0@, state[i].1@))
}

/// What an entry of a trace says of the cache, given the fingerprint of the
/// input: a parameter is fresh where its fingerprint is that of the input.
pub open spec fn translated(entry: CacheEntry, input: Seq<char>) -> DetailView {
    DetailView {
        value: entry.value@,
        fingerprint: entry.fingerprint@,
        world_state: judged(entry.world_state@, input),
        direct_world_state: judged(entry.direct_world_state@, input),
        deps_state: plain(entry.deps_state@),
    }
}

/// The entries with none of them fresh.
pub open spec fn all_stale(entries: Seq<WorldView>) -> Seq<WorldView> {
    Seq::new(
        entries.len(),
        |i: int| WorldView { fresh: false, key: entries[i].key, fingerprint: entries[i].fingerprint },
    )
}

/// The entry after the input has changed: no parameter that it saw is fresh.
pub open spec fn staled(entry: DetailView) -> DetailView {
    DetailView {
        value: entry.value,
        fingerprint: entry.fingerprint,
        world_state: all_stale(entry.world_state),
        direct_world_state: entry.direct_world_state,
        deps_state: entry.deps_state,
    }
}

fn judge(state: &Vec<(String, String)>, input: &String) -> (res: Vec<WorldEntry>)
    ensures
        world_views(res@) == judged(state@, input@),
{
    let mut res: Vec<WorldEntry> = Vec::new();
    let mut i: usize = 0;
    while i < state.len()
        invariant
            i <= state.len(),
            res@.len() == i,
            forall|j: int|
                0 <= j < i ==> (#[trigger] res@[j])@ == (WorldView {
                    fresh: state@[j].1@ == input@,
                    key: state@[j].0@,
                    fingerprint: state@[j].1@,
                }),
        decreases state.len() - i,
    {
        let fingerprint = state[i].1.clone();
        let freshness = if *input == fingerprint {
            Freshness::Fresh
        } else {
            Freshness::Stale
        };
        res.push(WorldEntry { freshness, key: state[i].0.clone(), fingerprint });
        i += 1;
    }
    proof {
        assert(world_views(res@) =~= judged(state@, input@));
    }
    res
}

fn copy_deps(state: &Vec<(String, String)>) -> (res: Vec<DepsEntry>)
    ensures
        deps_views(res@) == plain(state@),
{
    let mut res: Vec<DepsEntry> = Vec::new();
    let mut i: usize = 0;
    while i < state.len()
        invariant
            i <= state.len(),
            res@.len() == i,
            forall|j: int|
                0 <= j < i ==> (#[trigger] res@[j]).key@ == state@[j].0@ && res@[j].fingerprint@
                    == state@[j].1@,
        decreases state.len() - i,
    {
        res.push(DepsEntry { key: state[i].0.clone(), fingerprint: state[i].1.clone() });
        i += 1;
    }
    proof {
        assert(deps_views(res@) =~= plain(state@));
    }
    res
}

/// What an entry of a trace says of the cache, given the fingerprint of the
/// input.
pub fn translate(entry: &CacheEntry, input_fingerprint: &String) -> (res: CacheEntryDetail)
    ensures
        res@ == translated(*entry, input_fingerprint@),
{
    CacheEntryDetail {
        value: entry.value.clone(),
        fingerprint: entry.fingerprint.clone(),
        world_state: WorldMap(judge(&entry.world_state, input_fingerprint)),
        direct_world_state: WorldMap(judge(&entry.direct_world_state, input_fingerprint)),
        deps_state: DepsMap(copy_deps(&entry.deps_state)),
    }
}

fn copy_world(entries: &Vec<WorldEntry>, stale: bool) -> (res: Vec<WorldEntry>)
    ensures
        world_views(res@) == if stale {
            all_stale(world_views(entries@))
        } else {
            world_views(entries@)
        },
{
    let mut res: Vec<WorldEntry> = Vec::new();
    let mut i: usize = 0;
    while i < entries.len()
        invariant
            i <= entries.len(),
            res@.len() == i,
            forall|j: int|
                0 <= j < i ==> (#[trigger] res@[j])@ == (WorldView {
                    fresh: !stale && entries@[j]@.fresh,
                    key: entries@[j].key@,
                    fingerprint: entries@[j].fingerprint@,
                }),
        decreases entries.len() - i,
    {
        let freshness = if stale {
            Freshness::Stale
        } else {
            entries[i].freshness
        };
        res.push(
            WorldEntry {
                freshness,
                key: entries[i].key.clone(),
                fingerprint: entries[i].fingerprint.clone(),
            },
        );
        i += 1;
    }
    proof {
        if stale {
            assert(world_views(res@) =~= all_stale(world_views(entries@)));
        } else {
            assert(world_views(res@) =~= world_views(entries@));
        }
    }
    res
}

fn copy_queries(entries: &Vec<DepsEntry>) -> (res: Vec<DepsEntry>)
    ensures
        deps_views(res@) == deps_views(entries@),
{
    let mut res: Vec<DepsEntry> = Vec::new();
    let mut i: usize = 0;
    while i < entries.len()
        invariant
            i <= entries.len(),
            res@.len() == i,
            forall|j: int|
                0 <= j < i ==> (#[trigger] res@[j]).key@ == entries@[j].key@
                    && res@[j].fingerprint@ == entries@[j].fingerprint@,
        decreases entries.len() - i,
    {
        res.push(
            DepsEntry { key: entries[i].key.clone(), fingerprint: entries[i].fingerprint.clone() },
        );
        i += 1;
    }
    proof {
        assert(deps_views(res@) =~= deps_views(entries@));
    }
    res
}

impl Clone for CacheEntryDetail {
    fn clone(&self) -> (res: Self)
        ensures
            res@ == self@,
    {
        CacheEntryDetail {
            value: self.value.clone(),
            fingerprint: self.fingerprint.clone(),
            world_state: WorldMap(copy_world(&self.world_state.0, false)),
            direct_world_state: WorldMap(copy_world(&self.direct_world_state.0, false)),
            deps_state: DepsMap(copy_queries(&self.deps_state.0)),
        }
    }
}

impl CacheEntryDetail {
    /// The entry after the input has changed.
    pub fn stale(&self) -> (res: Self)
        ensures
            res@ == staled(self@),
    {
        CacheEntryDetail {
            value: self.value.clone(),
            fingerprint: self.fingerprint.clone(),
            world_state: WorldMap(copy_world(&self.world_state.0, true)),
            direct_world_state: WorldMap(copy_world(&self.direct_world_state.0, false)),
            deps_state: DepsMap(copy_queries(&self.deps_state.0)),
        }
    }
}

/// The cache at one moment of a trace.
pub struct CacheState(pub PerMap<String, CacheEntryDetail>);

/// What the entries of a cache say.
pub open spec fn details(cache: Map<Seq<char>, CacheEntryDetail>) -> Map<Seq<char>, DetailView> {
    cache.map_values(|e: CacheEntryDetail| e@)
}

/// An event with what the cache said when it came.
pub type Moment = (Message, Map<Seq<char>, DetailView>);

/// The events of a list with what the cache said at each.
pub open spec fn moments(list: Seq<(Message, CacheState)>) -> Seq<Moment> {
    Seq::new(list.len(), |i: int| (list[i].0, details(list[i].1.0@)))
}

/// The events of each chapter with what the cache said at each.
pub open spec fn chapter_moments(chapters: Seq<Vec<(Message, CacheState)>>) -> Seq<Seq<Moment>> {
    Seq::new(chapters.len(), |i: int| moments(chapters[i]@))
}

/// What a replay has made of the events it was given.
pub struct ReplayView {
    /// The chapters that are complete.
    pub chapters: Seq<Seq<Moment>>,
    /// The events of the chapter that is being read.
    pub current: Seq<Moment>,
    /// What the cache says now.
    pub cache: Map<Seq<char>, DetailView>,
    /// The fingerprint of the input of the chapter that is being read.
    pub input: Seq<char>,
    /// Whether the end of the trace was met.
    pub ended: bool,
}

/// What a replay makes of one more event. A new chapter closes the one
/// before it and begins with the cache as it is, but with no parameter
/// fresh; a push or a modification stores an entry, a removal takes one out;
/// any other event is kept with the cache as it is; nothing follows the end.
pub open spec fn step(state: ReplayView, message: Message) -> ReplayView {
    if state.ended {
        state
    } else {
        match message {
            Message::NewChapter { data, fingerprint } => ReplayView {
                chapters: if state.current.len() > 0 {
                    state.chapters.push(state.current)
                } else {
                    state.chapters
                },
                current: seq![(message, state.cache.map_values(|e: DetailView| staled(e)))],
                cache: state.cache,
                input: fingerprint@,
                ended: false,
            },
            Message::End {  } => ReplayView { ended: true, ..state },
            Message::Push { key, entry, stack } => ReplayView {
                cache: state.cache.insert(key@, translated(entry, state.input)),
                ..state
            },
            Message::Modify { key, entry, stack } => ReplayView {
                cache: state.cache.insert(key@, translated(entry, state.input)),
                ..state
            },
            Message::Remove { key, stack } => ReplayView {
                cache: state.cache.remove(key@),
                ..state
            },
            _ => ReplayView { current: state.current.push((message, state.cache)), ..state },
        }
    }
}

/// What a replay makes of nothing.
pub open spec fn start() -> ReplayView {
    ReplayView {
        chapters: Seq::empty(),
        current: Seq::empty(),
        cache: Map::empty(),
        input: Seq::empty(),
        ended: false,
    }
}

/// The chapters of a replay at its end: the chapter that was being read is
/// the last of them, if it holds an event.
pub open spec fn closed_chapters(state: ReplayView) -> Seq<Seq<Moment>> {
    if state.current.len() > 0 {
        state.chapters.push(state.current)
    } else {
        state.chapters
    }
}

/// The reading of a trace, event by event.
pub struct Replay {
    chapters: Vec<Vec<(Message, CacheState)>>,
    current: Vec<(Message, CacheState)>,
    cache: PerMap<String, CacheEntryDetail>,
    input_fingerprint: String,
    ended: bool,
}

/// Whether `stale` holds for `k` what `cache` holds, with no parameter fresh.
spec fn stale_at(
    stale: Map<Seq<char>, CacheEntryDetail>,
    cache: Map<Seq<char>, CacheEntryDetail>,
    k: Seq<char>,
) -> bool {
    cache.contains_key(k) && stale[k]@ == staled(cache[k]@)
}

/// Whether `stale` holds only what `cache` holds, with no parameter fresh.
spec fn stale_part(
    stale: Map<Seq<char>, CacheEntryDetail>,
    cache: Map<Seq<char>, CacheEntryDetail>,
) -> bool {
    forall|k: Seq<char>| #[trigger] stale.contains_key(k) ==> stale_at(stale, cache, k)
}

/// The cache with no parameter of any entry fresh.
fn stale_cache(cache: &PerMap<String, CacheEntryDetail>) -> (res: PerMap<String, CacheEntryDetail>)
    ensures
        details(res@) == details(cache@).map_values(|e: DetailView| staled(e)),
{
    broadcast use vstd::map::group_map_axioms;
    broadcast use vstd::set::group_set_axioms;

    let count = cache.len();
    let mut it = cache.iter();
    let ghost all = it.remaining();
    let mut res: PerMap<String, CacheEntryDetail> = PerMap::empty();
    let mut done: usize = 0;
    proof {
        assert(all.skip(0) =~= all);
    }
    while done < count
        invariant
            it.wf(),
            done <= count,
            all.len() == count,
            it.remaining() == all.skip(done as int),
            lists(all, cache@),
            res@.dom().finite(),
            res@.len() <= done,
            stale_part(res@, cache@),
            forall|j: int| 0 <= j < done ==> res@.contains_key((#[trigger] all[j]).0@),
        decreases count - done,
    {
        match it.next() {
            None => {},
            Some(entry) => {
                proof {
                    assert(all.skip(done as int)[0] == all[done as int]);
                    assert(all.skip(done as int).skip(1) =~= all.skip(done + 1));
                    assert(cache@.contains_pair(all[done as int].0@, all[done as int].1));
                }
                let ghost before = res@;
                res = res.insert(entry.0.clone(), entry.1.stale());
                proof {
                    assert(res@.dom() =~= before.dom().insert(entry.0@));
                    assert(*entry == all[done as int]);
                    assert(cache@[entry.0@] == entry.1);
                    assert forall|k: Seq<char>| #[trigger] res@.contains_key(k) implies stale_at(
                        res@,
                        cache@,
                        k,
                    ) by {
                        if k != entry.0@ {
                            assert(before.contains_key(k));
                            assert(stale_at(before, cache@, k));
                            assert(res@[k] == before[k]);
                        }
                    }
                    assert forall|j: int| 0 <= j < done + 1 implies res@.contains_key(
                        (#[trigger] all[j]).0@,
                    ) by {
                        if j < done {
                            assert(before.contains_key(all[j].0@));
                        }
                    }
                }
            },
        }
        done += 1;
    }
    proof {
        let left = details(res@);
        let right = details(cache@).map_values(|e: DetailView| staled(e));
        assert forall|k: Seq<char>| left.contains_key(k) <==> right.contains_key(k) by {
            assert(left.contains_key(k) <==> res@.contains_key(k));
            assert(right.contains_key(k) <==> cache@.contains_key(k));
            if res@.contains_key(k) {
                assert(stale_at(res@, cache@, k));
            }
            if cache@.contains_key(k) {
                let j = choose|j: int| 0 <= j < all.len() && (#[trigger] all[j]).0@ == k;
                assert(res@.contains_key(all[j].0@));
            }
        }
        assert forall|k: Seq<char>| left.contains_key(k) implies left[k] == right[k] by {
            assert(res@.contains_key(k));
            assert(stale_at(res@, cache@, k));
        }
        assert(left =~= right);
    }
    res
}

impl Replay {
    /// What the replay has made of the events so far.
    pub closed spec fn state(&self) -> ReplayView {
        ReplayView {
            chapters: chapter_moments(self.chapters@),
            current: moments(self.current@),
            cache: details(self.cache@),
            input: self.input_fingerprint@,
            ended: self.ended,
        }
    }

    pub fn new() -> (res: Self)
        ensures
            res.state() == start(),
    {
        let res = Replay {
            chapters: Vec::new(),
            current: Vec::new(),
            cache: PerMap::empty(),
            input_fingerprint: String::new(),
            ended: false,
        };
        proof {
            assert(res.state().chapters =~= Seq::empty());
            assert(res.state().current =~= Seq::empty());
            assert(res.state().cache =~= Map::empty());
        }
        res
    }

    /// Whether the cache has room for one more entry.
    pub fn has_room(&self) -> (b: bool)
        ensures
            b == (self.state().cache.len() < usize::MAX),
    {
        let n = self.cache.len();
        proof {
            assert(details(self.cache@).dom() =~= self.cache@.dom());
        }
        n < usize::MAX
    }

    /// Takes one more event.
    pub fn record(&mut self, message: Message)
        requires
            old(self).state().cache.len() < usize::MAX,
        ensures
            final(self).state() == step(old(self).state(), message),
    {
        proof {
            assert(details(self.cache@).dom() =~= self.cache@.dom());
        }
        if self.ended {
            return ;
        }
        match &message {
            Message::NewChapter { fingerprint, .. } => {
                self.input_fingerprint = fingerprint.clone();
                if self.current.len() > 0 {
                    let mut chapter: Vec<(Message, CacheState)> = Vec::new();
                    std::mem::swap(&mut chapter, &mut self.current);
                    self.chapters.push(chapter);
                    proof {
                        assert(chapter_moments(self.chapters@) =~= chapter_moments(
                            old(self).chapters@,
                        ).push(moments(old(self).current@)));
                    }
                }
                let stale = stale_cache(&self.cache);
                self.current.push((message, CacheState(stale)));
                proof {
                    assert(moments(self.current@) =~= seq![
                        (message, details(self.cache@).map_values(|e: DetailView| staled(e))),
                    ]);
                }
            },
            Message::End {  } => {
                self.ended = true;
            },
            Message::Push { key, entry, .. } => {
                self.cache = self.cache.insert(
                    key.clone(),
                    translate(entry, &self.input_fingerprint),
                );
                proof {
                    assert(details(self.cache@) =~= details(old(self).cache@).insert(
                        key@,
                        translated(*entry, old(self).input_fingerprint@),
                    ));
                }
            },
            Message::Modify { key, entry, .. } => {
                self.cache = self.cache.insert(
                    key.clone(),
                    translate(entry, &self.input_fingerprint),
                );
                proof {
                    assert(details(self.cache@) =~= details(old(self).cache@).insert(
                        key@,
                        translated(*entry, old(self).input_fingerprint@),
                    ));
                }
            },
            Message::Remove { key, .. } => {
                self.cache = self.cache.remove(key);
                proof {
                    assert(details(self.cache@) =~= details(old(self).cache@).remove(key@));
                }
            },
            _ => {
                let cache = self.cache.clone();
                self.current.push((message, CacheState(cache)));
                proof {
                    assert(moments(self.current@) =~= moments(old(self).current@).push(
                        (message, details(old(self).cache@)),
                    ));
                }
            },
        }
    }

    /// Ends the reading: the chapters that were read.
    pub fn finish(self) -> (res: ChaptersState)
        ensures
            res.chapters() == closed_chapters(self.state()),
    {
        let mut chapters = self.chapters;
        if self.current.len() > 0 {
            chapters.push(self.current);
            proof {
                assert(chapter_moments(chapters@) =~= chapter_moments(self.chapters@).push(
                    moments(self.current@),
                ));
            }
        }
        ChaptersState { chapters }
    }
}

/// The chapters of a trace, each event with the cache as it was then.
pub struct ChaptersState {
    chapters: Vec<Vec<(Message, CacheState)>>,
}

/// The data and the fingerprint of the first new chapter among the events
/// from place `from` on.
pub open spec fn heading(moments: Seq<Moment>, from: int) -> Option<(Seq<char>, Seq<char>)>
    decreases moments.len() - from,
{
    if from < 0 || from >= moments.len() {
        None
    } else {
        match moments[from].0 {
            Message::NewChapter { data, fingerprint } => Some((data@, fingerprint@)),
            _ => heading(moments, from + 1),
        }
    }
}

/// The place, the data and the fingerprint of each of the first `n` chapters
/// that has a heading.
pub open spec fn headings(chapters: Seq<Seq<Moment>>, n: int) -> Seq<(int, Seq<char>, Seq<char>)>
    decreases n,
{
    if n <= 0 {
        Seq::empty()
    } else {
        match heading(chapters[n - 1], 0) {
            Some((data, fingerprint)) => headings(chapters, n - 1).push(
                (n - 1, data, fingerprint),
            ),
            None => headings(chapters, n - 1),
        }
    }
}

/// What chapters say.
pub open spec fn chapter_views(chapters: Seq<Chapter>) -> Seq<(int, Seq<char>, Seq<char>)> {
    Seq::new(chapters.len(), |i: int| (chapters[i].id as int, chapters[i].data@, chapters[i].fingerprint@))
}

/// The text that stands for an operation on the cache; other events have
/// none.
pub open spec fn op_text(message: Message) -> Option<Seq<char>> {
    match message {
        Message::Pull { key, reason, stack } => Some("Pull "@ + key@),
        Message::Push { key, entry, stack } => Some("Push "@ + key@),
        Message::Modify { key, entry, stack } => Some("Modify "@ + key@),
        Message::Remove { key, stack } => Some("Remove "@ + key@),
        _ => None,
    }
}

/// The texts of the operations among the first `n` events.
pub open spec fn op_texts(moments: Seq<Moment>, n: int) -> Seq<Seq<char>>
    decreases n,
{
    if n <= 0 {
        Seq::empty()
    } else {
        match op_text(moments[n - 1].0) {
            Some(text) => op_texts(moments, n - 1).push(text),
            None => op_texts(moments, n - 1),
        }
    }
}

/// Whether `ops` are the operations with the texts `texts`, numbered from 0.
pub open spec fn numbered(ops: Seq<OpHead>, texts: Seq<Seq<char>>) -> bool {
    &&& ops.len() == texts.len()
    &&& forall|i: int|
        0 <= i < ops.len() ==> (#[trigger] ops[i]).id == i && ops[i].desc@ == texts[i]
            && !ops[i].is_comment
}

/// Whether `entries` holds each entry of `cache` once, and nothing else.
pub open spec fn snapshot_of(entries: Seq<KeyedEntry>, cache: Map<Seq<char>, DetailView>) -> bool {
    &&& cache.dom().finite()
    &&& entries.len() == cache.len()
    &&& forall|i: int|
        0 <= i < entries.len() ==> cache.contains_pair(
            (#[trigger] entries[i]).key@,
            entries[i].entry@,
        )
    &&& forall|k: Seq<char>|
        cache.contains_key(k) ==> exists|i: int|
            0 <= i < entries.len() && (#[trigger] entries[i]).key@ == k
}

/// The text of the operation that an event stands for.
fn describe(message: &Message) -> (res: Option<String>)
    ensures
        match res {
            Some(text) => op_text(*message) == Some(text@),
            None => op_text(*message) is None,
        },
{
    match message {
        Message::Pull { key, .. } => Some(String::from_str("Pull ").concat(key.as_str())),
        Message::Push { key, .. } => Some(String::from_str("Push ").concat(key.as_str())),
        Message::Modify { key, .. } => Some(String::from_str("Modify ").concat(key.as_str())),
        Message::Remove { key, .. } => Some(String::from_str("Remove ").concat(key.as_str())),
        _ => None,
    }
}

impl ChaptersState {
    /// The events of each chapter with what the cache said at each.
    pub closed spec fn chapters(&self) -> Seq<Seq<Moment>> {
        chapter_moments(self.chapters@)
    }

    /// The chapters that have a heading, in their order.
    pub fn get_chapters(&self) -> (res: Vec<Chapter>)
        ensures
            chapter_views(res@) == headings(self.chapters(), self.chapters().len() as int),
    {
        let mut res: Vec<Chapter> = Vec::new();
        let mut id: usize = 0;
        proof {
            assert(chapter_views(res@) =~= headings(self.chapters(), 0));
        }
        while id < self.chapters.len()
            invariant
                id <= self.chapters.len(),
                chapter_views(res@) == headings(self.chapters(), id as int),
            decreases self.chapters.len() - id,
        {
            let ghost before = chapter_views(res@);
            match Self::extract_chapter_from_messages(id, &self.chapters[id]) {
                Some(chapter) => {
                    res.push(chapter);
                    proof {
                        assert(chapter_views(res@) =~= before.push(
                            (id as int, chapter.data@, chapter.fingerprint@),
                        ));
                    }
                },
                None => {},
            }
            id += 1;
        }
        res
    }

    /// The chapter at place `chapter_id`, if there is one and it has a
    /// heading.
    pub fn get_chapter(&self, chapter_id: usize) -> (res: Option<Chapter>)
        ensures
            match res {
                Some(chapter) => {
                    &&& chapter_id < self.chapters().len()
                    &&& chapter.id == chapter_id
                    &&& heading(self.chapters()[chapter_id as int], 0) == Some(
                        (chapter.data@, chapter.fingerprint@),
                    )
                },
                None => chapter_id >= self.chapters().len() || heading(
                    self.chapters()[chapter_id as int],
                    0,
                ) is None,
            },
    {
        if chapter_id >= self.chapters.len() {
            return None;
        }
        Self::extract_chapter_from_messages(chapter_id, &self.chapters[chapter_id])
    }

    fn extract_chapter_from_messages(id: usize, messages: &Vec<(Message, CacheState)>) -> (res:
        Option<Chapter>)
        ensures
            match res {
                Some(chapter) => chapter.id == id && heading(moments(messages@), 0) == Some(
                    (chapter.data@, chapter.fingerprint@),
                ),
                None => heading(moments(messages@), 0) is None,
            },
    {
        let mut i: usize = 0;
        while i < messages.len()
            invariant
                i <= messages.len(),
                heading(moments(messages@), 0) == heading(moments(messages@), i as int),
            decreases messages.len() - i,
        {
            match &messages[i].0 {
                Message::NewChapter { data, fingerprint } => {
                    return Some(Chapter { id, data: data.clone(), fingerprint: fingerprint.clone() });
                },
                _ => {},
            }
            i += 1;
        }
        None
    }

    /// The operations of the chapter at place `chapter`, numbered from 0; none
    /// where there is no such chapter.
    pub fn get_ops(&self, chapter: usize) -> (res: Vec<OpHead>)
        ensures
            chapter >= self.chapters().len() ==> res@.len() == 0,
            chapter < self.chapters().len() ==> numbered(
                res@,
                op_texts(
                    self.chapters()[chapter as int],
                    self.chapters()[chapter as int].len() as int,
                ),
            ),
    {
        let mut res: Vec<OpHead> = Vec::new();
        if chapter >= self.chapters.len() {
            return res;
        }
        let messages = &self.chapters[chapter];
        let ghost list = moments(messages@);
        let mut i: usize = 0;
        while i < messages.len()
            invariant
                i <= messages.len(),
                list == moments(messages@),
                numbered(res@, op_texts(list, i as int)),
            decreases messages.len() - i,
        {
            match describe(&messages[i].0) {
                Some(desc) => {
                    let id = res.len();
                    res.push(OpHead { id, desc, is_comment: false });
                },
                None => {},
            }
            i += 1;
        }
        res
    }

    /// The chapter at place `chapter` with its operations.
    pub fn get_chapter_detail(&self, chapter: usize) -> (res: Option<ChapterDetail>)
        ensures
            match res {
                Some(detail) => {
                    &&& chapter < self.chapters().len()
                    &&& detail.head.id == chapter
                    &&& heading(self.chapters()[chapter as int], 0) == Some(
                        (detail.head.data@, detail.head.fingerprint@),
                    )
                    &&& numbered(
                        detail.ops@,
                        op_texts(
                            self.chapters()[chapter as int],
                            self.chapters()[chapter as int].len() as int,
                        ),
                    )
                },
                None => chapter >= self.chapters().len() || heading(
                    self.chapters()[chapter as int],
                    0,
                ) is None,
            },
    {
        let head = match self.get_chapter(chapter) {
            Some(head) => head,
            None => {
                return None;
            },
        };
        let ops = self.get_ops(chapter);
        Some(ChapterDetail { head, ops })
    }

    /// The cache as it was at the event at place `op` of the chapter at place
    /// `chapter`.
    pub fn get_snapshot(&self, chapter: usize, op: usize) -> (res: Option<Snapshot>)
        ensures
            match res {
                Some(snapshot) => {
                    &&& chapter < self.chapters().len()
                    &&& op < self.chapters()[chapter as int].len()
                    &&& snapshot_of(snapshot.0@, self.chapters()[chapter as int][op as int].1)
                },
                None => chapter >= self.chapters().len() || op
                    >= self.chapters()[chapter as int].len(),
            },
    {
        if chapter >= self.chapters.len() {
            return None;
        }
        if op >= self.chapters[chapter].len() {
            return None;
        }
        let cache = &self.chapters[chapter][op].1.0;
        let mut it = cache.iter();
        let ghost all = it.remaining();
        let mut entries: Vec<KeyedEntry> = Vec::new();
        proof {
            assert(all.skip(0) =~= all);
        }
        loop
            invariant_except_break
                it.remaining() == all.skip(entries@.len() as int),
            invariant
                it.wf(),
                entries@.len() <= all.len(),
                lists(all, cache@),
                forall|i: int|
                    0 <= i < entries@.len() ==> (#[trigger] entries@[i]).key@ == all[i].0@
                        && entries@[i].entry@ == all[i].1@,
            ensures
                entries@.len() == all.len(),
            decreases all.len() - entries@.len(),
        {
            let ghost done = entries@.len() as int;
            match it.next() {
                None => {
                    break ;
                },
                Some(entry) => {
                    proof {
                        assert(all.skip(done)[0] == all[done]);
                        assert(all.skip(done).skip(1) =~= all.skip(done + 1));
                    }
                    entries.push(KeyedEntry { key: entry.0.clone(), entry: entry.1.clone() });
                },
            }
        }
        proof {
            broadcast use vstd::map::group_map_axioms;

            let shown = details(cache@);
            assert(shown.dom() =~= cache@.dom());
            assert forall|i: int| 0 <= i < entries@.len() implies shown.contains_pair(
                (#[trigger] entries@[i]).key@,
                entries@[i].entry@,
            ) by {
                assert(cache@.contains_pair(all[i].0@, all[i].1));
            }
            assert forall|k: Seq<char>| shown.contains_key(k) implies exists|i: int|
                0 <= i < entries@.len() && (#[trigger] entries@[i]).key@ == k by {
                let i = choose|i: int| 0 <= i < all.len() && (#[trigger] all[i]).0@ == k;
                assert(entries@[i].key@ == k);
            }
            assert(snapshot_of(entries@, shown));
        }
        Some(Snapshot(entries))
    }
}

} // verus!

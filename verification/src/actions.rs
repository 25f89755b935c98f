//! The action table: command text mapped to handlers, and the protocol by
//! which a handler that has run changes the table it was found in.

use vstd::hash_map::StringHashMap;
use vstd::prelude::*;

verus! {

/// What a handler asks of the table after it has run: entries to add, in the
/// order given, and keys to remove.
pub struct FunctorRes<H> {
    to_add: Vec<(String, H)>,
    to_rem: Vec<String>,
}

/// The handler that the last pair of `adds` under `key` carries, if any pair
/// has that key.
pub open spec fn last_added<H>(adds: Seq<(Seq<char>, H)>, key: Seq<char>) -> Option<H>
    decreases adds.len(),
{
    if adds.len() == 0 {
        None
    } else if adds.last().0 == key {
        Some(adds.last().1)
    } else {
        last_added(adds.drop_last(), key)
    }
}

/// The table that results from `table` when every key of `rems` is removed
/// and then every pair of `adds` is inserted: a key that is added is present
/// with the handler it was last added with, whether or not it was removed;
/// any other key stays as it was unless it was removed.
pub open spec fn mutated<H>(
    table: Map<Seq<char>, H>,
    adds: Seq<(Seq<char>, H)>,
    rems: Seq<Seq<char>>,
) -> Map<Seq<char>, H> {
    Map::new(
        |k: Seq<char>| last_added(adds, k) is Some || (table.contains_key(k) && !rems.contains(k)),
        |k: Seq<char>|
            match last_added(adds, k) {
                Some(h) => h,
                None => table[k],
            },
    )
}

impl<H> FunctorRes<H> {
    /// The entries to add, each key by its text, in the order they were asked for.
    pub closed spec fn additions(&self) -> Seq<(Seq<char>, H)> {
        self.to_add@.map_values(|p: (String, H)| (p.0@, p.1))
    }

    /// The keys to remove, each by its text.
    pub closed spec fn removals(&self) -> Seq<Seq<char>> {
        self.to_rem@.map_values(|k: String| k@)
    }

    /// A request that changes nothing.
    pub fn new() -> (res: Self)
        ensures
            res.additions() == Seq::<(Seq<char>, H)>::empty(),
            res.removals() == Seq::<Seq<char>>::empty(),
    {
        let res = Self { to_add: Vec::new(), to_rem: Vec::new() };
        assert(res.additions() =~= Seq::<(Seq<char>, H)>::empty());
        assert(res.removals() =~= Seq::<Seq<char>>::empty());
        res
    }

    /// Asks for `func` to be entered under `key`, after the entries asked for so far.
    pub fn register(&mut self, key: &str, func: H)
        ensures
            final(self).additions() == old(self).additions().push((key@, func)),
            final(self).removals() == old(self).removals(),
    {
        self.to_add.push((key.to_owned(), func));
        assert(final(self).additions() =~= old(self).additions().push((key@, func)));
    }

    /// Asks for the entry under `key` to be removed.
    pub fn unregister(&mut self, key: &str)
        ensures
            final(self).additions() == old(self).additions(),
            final(self).removals() == old(self).removals().push(key@),
    {
        self.to_rem.push(key.to_owned());
        assert(final(self).removals() =~= old(self).removals().push(key@));
    }
}

/// A handler: one operation, run with the sink in hand, that hands back what
/// it asks of the table.
pub trait Functor<T>: Sized {
    /// What one run of this handler may do: `before` and `after` are the sink
    /// around the run, `asked` is what the run handed back. The handler
    /// states this of itself; the table promises no more of a dispatch than
    /// this relation does. A handler that states nothing may do anything.
    open spec fn effect(&self, before: T, after: T, asked: FunctorRes<Self>) -> bool {
        true
    }

    /// Runs the handler once.
    fn execute(&self, sink: &mut T) -> (asked: FunctorRes<Self>)
        ensures
            self.effect(*old(sink), *final(sink), asked),
    ;
}

/// The texts of `lines`.
pub open spec fn texts(lines: Seq<String>) -> Seq<Seq<char>> {
    lines.map_values(|l: String| l@)
}

/// One dispatch of `key`: from table `t0` and sink `s0` to table `t1` and sink
/// `s1`. An absent key changes nothing. A present key runs its handler once,
/// and the table is then changed as the handler asked.
pub open spec fn dispatches<T, H: Functor<T>>(
    t0: Map<Seq<char>, H>,
    s0: T,
    key: Seq<char>,
    t1: Map<Seq<char>, H>,
    s1: T,
) -> bool {
    if t0.contains_key(key) {
        exists|asked: FunctorRes<H>|
            #[trigger] t0[key].effect(s0, s1, asked) && t1 == mutated(
                t0,
                asked.additions(),
                asked.removals(),
            )
    } else {
        t1 == t0 && s1 == s0
    }
}

/// The dispatch of every key of `keys`, first to last, each from the table
/// and the sink that the one before it left.
pub open spec fn dispatches_all<T, H: Functor<T>>(
    t0: Map<Seq<char>, H>,
    s0: T,
    keys: Seq<Seq<char>>,
    t1: Map<Seq<char>, H>,
    s1: T,
) -> bool
    decreases keys.len(),
{
    if keys.len() == 0 {
        t1 == t0 && s1 == s0
    } else {
        exists|tm: Map<Seq<char>, H>, sm: T|
            dispatches_all(t0, s0, keys.drop_last(), tm, sm) && #[trigger] dispatches(
                tm,
                sm,
                keys.last(),
                t1,
                s1,
            )
    }
}

/// Removals are carried out one after the other: no request leaves the table
/// as it is, and one more removal removes that key from what the removals
/// before it left.
pub proof fn lemma_mutated_removes<H>(
    table: Map<Seq<char>, H>,
    rems: Seq<Seq<char>>,
    key: Seq<char>,
)
    ensures
        mutated(table, Seq::empty(), Seq::empty()) == table,
        mutated(table, Seq::empty(), rems.push(key)) == mutated(table, Seq::empty(), rems).remove(
            key,
        ),
{
    let adds = Seq::<(Seq<char>, H)>::empty();
    assert(mutated(table, adds, Seq::empty()) =~= table);
    let removed = mutated(table, adds, rems.push(key));
    let before = mutated(table, adds, rems);
    assert forall|k: Seq<char>| removed.contains_key(k) <==> before.remove(key).contains_key(
        k,
    ) by {
        if rems.contains(k) {
            let j = choose|j: int| 0 <= j < rems.len() && rems[j] == k;
            assert(rems.push(key)[j] == k);
        }
        if k == key {
            assert(rems.push(key)[rems.len() as int] == k);
        }
    }
    assert(removed =~= before.remove(key));
}

/// Additions are carried out one after the other, behind the removals: one
/// more addition enters that pair in what the removals and the additions
/// before it left.
pub proof fn lemma_mutated_adds<H>(
    table: Map<Seq<char>, H>,
    adds: Seq<(Seq<char>, H)>,
    rems: Seq<Seq<char>>,
    key: Seq<char>,
    func: H,
)
    ensures
        mutated(table, adds.push((key, func)), rems) == mutated(table, adds, rems).insert(
            key,
            func,
        ),
{
    assert(adds.push((key, func)).drop_last() =~= adds);
    assert(mutated(table, adds.push((key, func)), rems) =~= mutated(table, adds, rems).insert(
        key,
        func,
    ));
}

/// A handler that asks for one key to be removed and for a handler to be
/// entered under another leaves a table in which a dispatch of the removed
/// key changes nothing and a dispatch of the other key is one run of the new
/// handler.
pub proof fn lemma_handler_replaced<T, H: Functor<T>>(
    table: Map<Seq<char>, H>,
    gone: Seq<char>,
    key: Seq<char>,
    func: H,
    s0: T,
    t1: Map<Seq<char>, H>,
    s1: T,
)
    requires
        gone != key,
    ensures
        !mutated(table, seq![(key, func)], seq![gone]).contains_key(gone),
        mutated(table, seq![(key, func)], seq![gone]).contains_key(key),
        mutated(table, seq![(key, func)], seq![gone])[key] == func,
        dispatches(mutated(table, seq![(key, func)], seq![gone]), s0, gone, t1, s1) ==> t1
            == mutated(table, seq![(key, func)], seq![gone]) && s1 == s0,
        dispatches(mutated(table, seq![(key, func)], seq![gone]), s0, key, t1, s1) ==> exists|
            asked: FunctorRes<H>,
        | #[trigger] func.effect(s0, s1, asked),
{
    let adds = seq![(key, func)];
    let rems = seq![gone];
    let after = mutated(table, adds, rems);
    assert(adds.drop_last() =~= Seq::<(Seq<char>, H)>::empty());
    assert(last_added(adds, key) == Some(func));
    assert(last_added(adds.drop_last(), gone) is None);
    assert(last_added(adds, gone) is None);
    assert(rems[0] == gone);
    assert(rems.contains(gone));
    if dispatches(after, s0, key, t1, s1) {
        let asked = choose|asked: FunctorRes<H>|
            #[trigger] after[key].effect(s0, s1, asked) && t1 == mutated(
                after,
                asked.additions(),
                asked.removals(),
            );
        assert(func.effect(s0, s1, asked));
    }
}

/// A key that has been entered is dispatched to the handler it was entered
/// with: the dispatch is one run of that handler, and the table is then
/// changed as that run asked.
pub proof fn lemma_entered_key_is_dispatched<T, H: Functor<T>>(
    table: Map<Seq<char>, H>,
    key: Seq<char>,
    func: H,
    s0: T,
    t1: Map<Seq<char>, H>,
    s1: T,
)
    requires
        dispatches(table.insert(key, func), s0, key, t1, s1),
    ensures
        exists|asked: FunctorRes<H>|
            #[trigger] func.effect(s0, s1, asked) && t1 == mutated(
                table.insert(key, func),
                asked.additions(),
                asked.removals(),
            ),
{
    let entered = table.insert(key, func);
    let asked = choose|asked: FunctorRes<H>|
        #[trigger] entered[key].effect(s0, s1, asked) && t1 == mutated(
            entered,
            asked.additions(),
            asked.removals(),
        );
    assert(func.effect(s0, s1, asked));
}

/// Dispatching `first` and then `second` is dispatching the two in a row.
pub proof fn lemma_dispatches_all_concat<T, H: Functor<T>>(
    t0: Map<Seq<char>, H>,
    s0: T,
    first: Seq<Seq<char>>,
    tm: Map<Seq<char>, H>,
    sm: T,
    second: Seq<Seq<char>>,
    t1: Map<Seq<char>, H>,
    s1: T,
)
    requires
        dispatches_all(t0, s0, first, tm, sm),
        dispatches_all(tm, sm, second, t1, s1),
    ensures
        dispatches_all(t0, s0, first + second, t1, s1),
    decreases second.len(),
{
    if second.len() == 0 {
        assert(first + second =~= first);
    } else {
        let (tn, sn) = choose|tn: Map<Seq<char>, H>, sn: T|
            dispatches_all(tm, sm, second.drop_last(), tn, sn) && #[trigger] dispatches(
                tn,
                sn,
                second.last(),
                t1,
                s1,
            );
        lemma_dispatches_all_concat(t0, s0, first, tm, sm, second.drop_last(), tn, sn);
        assert((first + second).drop_last() =~= first + second.drop_last());
        assert((first + second).last() == second.last());
    }
}

/// The table of actions, and the sink that its handlers write to.
#[verifier::reject_recursive_types(H)]
pub struct Actions<T, H> {
    writer: T,
    map: StringHashMap<H>,
}

impl<T, H: Functor<T>> Actions<T, H> {
    /// The table: command text to handler.
    pub closed spec fn table(&self) -> Map<Seq<char>, H> {
        self.map@
    }

    /// The sink.
    pub closed spec fn sink(&self) -> T {
        self.writer
    }

    /// An empty table around `writer`.
    pub fn new(writer: T) -> (res: Self)
        ensures
            res.table() == Map::<Seq<char>, H>::empty(),
            res.sink() == writer,
    {
        Actions { writer, map: StringHashMap::new() }
    }

    /// Dispatches `key`: runs the handler entered under exactly that text, if
    /// there is one, then removes what it asked to remove and adds what it
    /// asked to add.
    pub fn apply(self, key: &str) -> (res: Self)
        ensures
            dispatches(self.table(), self.sink(), key@, res.table(), res.sink()),
    {
        let Actions { mut writer, mut map } = self;
        let asked = match map.get(key) {
            Some(func) => Some(func.execute(&mut writer)),
            None => None,
        };
        let mut res = Actions { writer, map };
        match asked {
            Some(asked) => {
                res.mutate(asked);
                assert(self.table()[key@].effect(self.sink(), res.sink(), asked));
            },
            None => {},
        }
        res
    }

    /// Changes the table as `asked` says: the removals first, then the
    /// additions in their order. The sink is not touched.
    pub fn mutate(&mut self, asked: FunctorRes<H>)
        ensures
            final(self).table() == mutated(old(self).table(), asked.additions(), asked.removals()),
            final(self).sink() == old(self).sink(),
    {
        let ghost table = self.map@;
        let ghost adds = asked.additions();
        let ghost rems = asked.removals();
        let ghost none = Seq::<(Seq<char>, H)>::empty();
        let FunctorRes { to_add, to_rem } = asked;
        let mut i: usize = 0;
        proof {
            assert(rems.take(0) =~= Seq::<Seq<char>>::empty());
            assert(mutated(table, none, Seq::empty()) =~= table);
        }
        while i < to_rem.len()
            invariant
                i <= to_rem.len(),
                rems == to_rem@.map_values(|k: String| k@),
                self.writer == old(self).writer,
                none == Seq::<(Seq<char>, H)>::empty(),
                self.map@ == mutated(table, none, rems.take(i as int)),
            decreases to_rem.len() - i,
        {
            proof {
                assert(rems.take(i + 1) =~= rems.take(i as int).push(rems[i as int]));
                lemma_mutated_removes(table, rems.take(i as int), rems[i as int]);
            }
            self.map.remove(to_rem[i].as_str());
            i = i + 1;
        }
        proof {
            assert(rems.take(rems.len() as int) =~= rems);
            assert(adds.take(0) =~= none);
        }
        let ghost pairs = to_add@;
        for pair in it: to_add
            invariant
                it.seq() == pairs,
                adds == pairs.map_values(|p: (String, H)| (p.0@, p.1)),
                self.writer == old(self).writer,
                self.map@ == mutated(table, adds.take(it.index() as int), rems),
        {
            let (key, func) = pair;
            proof {
                assert(adds.take(it.index() + 1) =~= adds.take(it.index() as int).push(
                    (key@, func),
                ));
                lemma_mutated_adds(table, adds.take(it.index() as int), rems, key@, func);
            }
            self.map.insert(key, func);
        }
        assert(adds.take(adds.len() as int) =~= adds);
    }

    /// Dispatches every line of `lines`, first to last, and leaves `lines` empty.
    pub fn apply_all(self, lines: &mut Vec<String>) -> (res: Self)
        ensures
            final(lines)@.len() == 0,
            dispatches_all(
                self.table(),
                self.sink(),
                texts(old(lines)@),
                res.table(),
                res.sink(),
            ),
    {
        let ghost keys = texts(lines@);
        let mut actions = self;
        let mut i: usize = 0;
        proof {
            assert(keys.take(0) =~= Seq::<Seq<char>>::empty());
        }
        while i < lines.len()
            invariant
                i <= lines@.len(),
                lines@ == old(lines)@,
                keys == texts(lines@),
                dispatches_all(
                    self.table(),
                    self.sink(),
                    keys.take(i as int),
                    actions.table(),
                    actions.sink(),
                ),
            decreases lines@.len() - i,
        {
            let ghost tm = actions.table();
            let ghost sm = actions.sink();
            actions = actions.apply(lines[i].as_str());
            proof {
                let next = keys.take(i + 1);
                assert(next.drop_last() =~= keys.take(i as int));
                assert(next.last() == lines@[i as int]@);
                assert(dispatches(tm, sm, next.last(), actions.table(), actions.sink()));
            }
            i = i + 1;
        }
        proof {
            assert(keys.take(keys.len() as int) =~= keys);
        }
        lines.clear();
        actions
    }

    /// The sink.
    pub fn writer(&self) -> (writer: &T)
        ensures
            *writer == self.sink(),
    {
        &self.writer
    }

    /// Takes the table apart and gives the sink back.
    pub fn into_writer(self) -> (writer: T)
        ensures
            writer == self.sink(),
    {
        self.writer
    }

    /// Whether a handler is entered under `key`.
    pub fn contains(&self, key: &str) -> (found: bool)
        ensures
            found == self.table().contains_key(key@),
    {
        self.map.contains_key(key)
    }

    /// Enters the boxed handler `func` under `key`, in place of what was there.
    pub fn add_box(&mut self, key: String, func: Box<H>)
        ensures
            final(self).table() == old(self).table().insert(key@, *func),
            final(self).sink() == old(self).sink(),
    {
        self.map.insert(key, *func);
    }

    /// Enters `func` under `key`, in place of what was there.
    pub fn add(&mut self, key: &str, func: H)
        ensures
            final(self).table() == old(self).table().insert(key@, func),
            final(self).sink() == old(self).sink(),
    {
        self.map.insert(key.to_owned(), func);
    }
}

} // verus!

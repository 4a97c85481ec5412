use crate::wal::{KeyView, LogData, LogStore, StoreOpView, ValueView};
use vstd::prelude::*;

verus! {

/// A call that a log engine has made of its store, with what the store
/// answered.
pub enum StoreCall<K, V> {
    /// Asked for the value under the key, and got this.
    Get(K, Option<V>),
    /// Had the key taken out.
    Remove(K),
    /// Had the value put under the key.
    Update(K, V),
    /// Asked to make the mappings durable; `true` where the store could.
    Flush(bool),
    /// Asked to make the one mapping durable; `true` where the store
    /// could.
    FlushChange(K, V, bool),
}

/// What a store answered when asked for a value, as a mathematical
/// value.
pub open spec fn held_view<Data: LogData>(held: Option<Data::Value>) -> Option<ValueView<Data>> {
    match held {
        Some(value) => Some(value@),
        None => None,
    }
}

/// The call that has a store do the operation.
pub open spec fn op_call<K, V>(op: StoreOpView<K, V>) -> StoreCall<K, V> {
    match op {
        StoreOpView::Remove(key) => StoreCall::Remove(key),
        StoreOpView::Update(key, value) => StoreCall::Update(key, value),
    }
}

/// The calls that have a store do the operations, in their order.
pub open spec fn op_calls<K, V>(ops: Seq<StoreOpView<K, V>>) -> Seq<StoreCall<K, V>> {
    Seq::new(ops.len(), |i: int| op_call(ops[i]))
}

/// The calls that ask a store, one after the other, to make each of the
/// mappings durable. The store could each time, but for the last where
/// `failed`.
pub open spec fn change_calls<K, V>(pairs: Seq<(K, V)>, failed: bool) -> Seq<StoreCall<K, V>> {
    Seq::new(
        pairs.len(),
        |i: int| StoreCall::FlushChange(pairs[i].0, pairs[i].1, !(failed && i == pairs.len() - 1)),
    )
}

/// A store, with the record of the calls that were made of it through
/// this value. A log engine keeps its store in one of these, and so
/// reaches the store in no other way.
pub struct Watched<Data: LogData, Store: LogStore<Data>> {
    store: Store,
    calls: Ghost<Seq<StoreCall<KeyView<Data>, ValueView<Data>>>>,
}

impl<Data: LogData, Store: LogStore<Data>> Watched<Data, Store> {
    /// The calls made of the store, oldest first.
    pub closed spec fn calls(&self) -> Seq<StoreCall<KeyView<Data>, ValueView<Data>>> {
        self.calls@
    }

    /// The store.
    pub closed spec fn inner(&self) -> Store {
        self.store
    }

    /// The store with no call made of it yet.
    pub fn new(store: Store) -> (watched: Self)
        ensures
            watched.calls() == Seq::<StoreCall<KeyView<Data>, ValueView<Data>>>::empty(),
            watched.inner() == store,
    {
        Watched { store, calls: Ghost(Seq::empty()) }
    }

    /// The store, to look at.
    pub fn store(&self) -> (store: &Store)
        ensures
            *store == self.inner(),
    {
        &self.store
    }

    /// Gives the store back.
    pub fn into_store(self) -> (store: Store)
        ensures
            store == self.inner(),
    {
        self.store
    }

    /// Asks the store for the value under `key`.
    pub fn get(&mut self, key: &Data::Key) -> (r: Option<Data::Value>)
        ensures
            final(self).calls() == old(self).calls().push(
                StoreCall::Get(key@, held_view::<Data>(r)),
            ),
    {
        let r = self.store.get(key);
        self.calls = Ghost(self.calls@.push(StoreCall::Get(key@, held_view::<Data>(r))));
        r
    }

    /// Has the store take `key` out.
    pub fn remove(&mut self, key: &Data::Key)
        ensures
            final(self).calls() == old(self).calls().push(StoreCall::Remove(key@)),
    {
        self.store.remove(key);
        self.calls = Ghost(self.calls@.push(StoreCall::Remove(key@)));
    }

    /// Has the store put `val` under `key`.
    pub fn update(&mut self, key: Data::Key, val: Data::Value)
        ensures
            final(self).calls() == old(self).calls().push(StoreCall::Update(key@, val@)),
    {
        let ghost call = StoreCall::Update(key@, val@);
        self.store.update(key, val);
        self.calls = Ghost(self.calls@.push(call));
    }

    /// Asks the store to make its mappings durable.
    pub fn flush(&mut self) -> (r: Result<(), std::io::Error>)
        ensures
            final(self).calls() == old(self).calls().push(StoreCall::Flush(r is Ok)),
    {
        let r = self.store.flush();
        self.calls = Ghost(self.calls@.push(StoreCall::Flush(r is Ok)));
        r
    }

    /// Asks the store to make the one mapping of `key` to `val` durable.
    pub fn flush_change(&mut self, key: Data::Key, val: Data::Value) -> (r: Result<
        (),
        std::io::Error,
    >)
        ensures
            final(self).calls() == old(self).calls().push(
                StoreCall::FlushChange(key@, val@, r is Ok),
            ),
    {
        let ghost k = key@;
        let ghost v = val@;
        let r = self.store.flush_change(key, val);
        self.calls = Ghost(self.calls@.push(StoreCall::FlushChange(k, v, r is Ok)));
        r
    }
}

} // verus!

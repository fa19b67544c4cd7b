use std::cell::RefCell;
use std::collections::BTreeMap;
use xbpf::hashmap::{Command, MapError, Operation, Outcome, Progress, Reply, UpdateMode};

/// A map of the kernel, kept in memory.
struct KernelMap<K, V> {
    entries: RefCell<BTreeMap<K, V>>,
    max_entries: usize,
}

impl<K: Copy + Ord, V: Copy> KernelMap<K, V> {
    fn new(max_entries: usize) -> Self {
        KernelMap {
            entries: RefCell::new(BTreeMap::new()),
            max_entries,
        }
    }

    fn update(&self, key: K, value: V, mode: UpdateMode) -> Result<(), MapError> {
        let mut entries = self.entries.borrow_mut();
        let held = entries.contains_key(&key);
        if held && mode == UpdateMode::NoExist {
            return Err(MapError::AlreadyExists);
        }
        if !held && mode == UpdateMode::Exist {
            return Err(MapError::NotFound);
        }
        if !held && entries.len() >= self.max_entries {
            return Err(MapError::Other);
        }
        entries.insert(key, value);
        Ok(())
    }

    fn delete(&self, key: K) -> Result<(), MapError> {
        match self.entries.borrow_mut().remove(&key) {
            Some(_) => Ok(()),
            None => Err(MapError::NotFound),
        }
    }

    fn run(&self, command: Command<K, V>) -> Reply<K, V> {
        let done = match command {
            Command::Lookup(key) => {
                return Reply::Value(self.entries.borrow().get(&key).copied());
            }
            Command::Keys => {
                return Reply::Keys(self.entries.borrow().keys().copied().collect());
            }
            Command::Update(key, value, mode) => self.update(key, value, mode),
            Command::Delete(key) => self.delete(key),
            Command::UpdateBatch(entries) => entries
                .into_iter()
                .try_for_each(|(key, value)| self.update(key, value, UpdateMode::Any)),
            Command::DeleteBatch(keys) => keys.into_iter().try_for_each(|key| self.delete(key)),
        };
        match done {
            Ok(()) => Reply::Done,
            Err(e) => Reply::Failed(e),
        }
    }
}

/// Carries operations out on a map.
struct HashMap<'a, K, V> {
    map: &'a KernelMap<K, V>,
}

impl<'a, K: Copy + Ord, V: Copy> HashMap<'a, K, V> {
    fn from_map(map: &'a KernelMap<K, V>) -> Result<Self, MapError> {
        Ok(HashMap { map })
    }

    fn carry_out(&self, operation: Operation<K, V>) -> Result<Outcome<K, V>, MapError> {
        let mut operation = operation;
        loop {
            let reply = self.map.run(operation.command());
            match operation.resume(reply) {
                Progress::Continue(next) => operation = next,
                Progress::Finish(result) => return result,
            }
        }
    }

    fn value(&self, operation: Operation<K, V>) -> Result<Option<V>, MapError> {
        match self.carry_out(operation)? {
            Outcome::Value(value) => Ok(value),
            _ => panic!("an operation that gives a value"),
        }
    }

    fn flag(&self, operation: Operation<K, V>) -> Result<bool, MapError> {
        match self.carry_out(operation)? {
            Outcome::Flag(flag) => Ok(flag),
            _ => panic!("an operation that gives a flag"),
        }
    }

    fn unit(&self, operation: Operation<K, V>) -> Result<(), MapError> {
        match self.carry_out(operation)? {
            Outcome::Unit => Ok(()),
            _ => panic!("an operation that gives nothing"),
        }
    }

    fn get(&self, key: &K) -> Result<Option<V>, MapError> {
        self.value(Operation::Get(*key))
    }

    fn insert(&self, key: K, value: V) -> Result<Option<V>, MapError> {
        self.value(Operation::Insert(key, value))
    }

    fn remove(&self, key: &K) -> Result<Option<V>, MapError> {
        self.value(Operation::Remove(*key))
    }

    fn contains_key(&self, key: &K) -> Result<bool, MapError> {
        self.flag(Operation::ContainsKey(*key))
    }

    fn insert_new(&self, key: K, value: V) -> Result<bool, MapError> {
        self.flag(Operation::InsertNew(key, value))
    }

    fn replace(&self, key: &K, value: V) -> Result<bool, MapError> {
        self.flag(Operation::Replace(*key, value))
    }

    fn clear(&self) -> Result<(), MapError> {
        self.unit(Operation::Clear)
    }

    fn insert_batch(&self, entries: &[(K, V)]) -> Result<(), MapError> {
        self.unit(Operation::InsertBatch(entries.to_vec()))
    }

    fn remove_batch(&self, keys: &[K]) -> Result<(), MapError> {
        self.unit(Operation::RemoveBatch(keys.to_vec()))
    }

    fn iter(&self) -> Result<std::vec::IntoIter<(K, V)>, MapError> {
        match self.carry_out(Operation::Iter)? {
            Outcome::Entries(entries) => Ok(entries.into_iter()),
            _ => panic!("an operation that gives entries"),
        }
    }

    fn len(&self) -> usize {
        match self.carry_out(Operation::Len) {
            Ok(Outcome::Count(count)) => count,
            _ => panic!("an operation that gives a count"),
        }
    }

    fn is_empty(&self) -> bool {
        self.len() == 0
    }
}

#[test]
fn hashmap_wraps_a_skeleton_map() {
    let map: KernelMap<u32, u64> = KernelMap::new(1024);
    let counts: HashMap<u32, u64> = HashMap::from_map(&map).expect("wrap counts map");

    assert!(counts.is_empty());
    assert_eq!(counts.insert(1, 10).expect("insert"), None);
    assert_eq!(counts.insert(1, 20).expect("insert"), Some(10));
    assert_eq!(counts.get(&1).expect("get"), Some(20));
    assert_eq!(counts.get(&2).expect("get"), None);
    assert!(counts.contains_key(&1).expect("contains_key"));
    assert!(!counts.insert_new(1, 99).expect("insert_new"));
    assert!(counts.insert_new(2, 200).expect("insert_new"));
    assert!(counts.replace(&2, 201).expect("replace"));
    assert!(!counts.replace(&3, 1).expect("replace"));

    let mut entries: Vec<(u32, u64)> = counts.iter().expect("iter").collect();
    entries.sort();
    assert_eq!(entries, vec![(1, 20), (2, 201)]);

    assert_eq!(counts.len(), 2);
    assert_eq!(counts.remove(&1).expect("remove"), Some(20));
    assert_eq!(counts.remove(&1).expect("remove"), None);
    assert_eq!(counts.len(), 1);

    counts.clear().expect("clear");
    assert!(counts.is_empty());
}

#[test]
fn hashmap_create_supports_batch_operations() {
    let standalone: KernelMap<u32, u64> = KernelMap::new(64);
    let map: HashMap<u32, u64> = HashMap::from_map(&standalone).expect("create hash map");

    let entries: Vec<(u32, u64)> = (0..32).map(|i| (i, i as u64 * 2)).collect();
    map.insert_batch(&entries).expect("insert_batch");
    assert_eq!(map.len(), entries.len());

    for (k, v) in &entries {
        assert_eq!(map.get(k).expect("get"), Some(*v));
    }

    let keys: Vec<u32> = entries.iter().map(|(k, _)| *k).collect();
    map.remove_batch(&keys[..16]).expect("remove_batch");
    assert_eq!(map.len(), 16);

    for k in &keys[..16] {
        assert_eq!(map.get(k).expect("get"), None);
    }
    for k in &keys[16..] {
        assert!(map.get(k).expect("get").is_some());
    }
}

#[test]
fn errors_of_the_kernel_end_an_operation() {
    let small: KernelMap<u32, u64> = KernelMap::new(1);
    let map = HashMap::from_map(&small).unwrap();
    assert_eq!(map.insert(1, 1), Ok(None));
    assert_eq!(map.insert(2, 2), Err(MapError::Other));
    assert_eq!(map.insert_new(2, 2), Err(MapError::Other));
    assert_eq!(map.insert(1, 3), Ok(Some(1)));
    assert_eq!(map.remove_batch(&[1, 2]), Err(MapError::NotFound));
    assert_eq!(map.insert_batch(&[(4, 4), (5, 5)]), Err(MapError::Other));
}

#[test]
fn replies_are_read_as_their_commands_ask() {
    let get: Operation<u32, u64> = Operation::Get(5);
    assert_eq!(get.command(), Command::Lookup(5));
    assert_eq!(
        get.resume(Reply::Failed(MapError::NotFound)),
        Progress::Finish(Ok(Outcome::Value(None)))
    );
    let get: Operation<u32, u64> = Operation::Get(5);
    assert_eq!(
        get.resume(Reply::Done),
        Progress::Finish(Err(MapError::UnexpectedReply))
    );
    let gone: Operation<u32, u64> = Operation::RemoveFound(5, 50);
    assert_eq!(gone.command(), Command::Delete(5));
    assert_eq!(
        gone.resume(Reply::Failed(MapError::NotFound)),
        Progress::Finish(Ok(Outcome::Value(None)))
    );
    let clear: Operation<u32, u64> = Operation::Clear;
    assert_eq!(
        clear.resume(Reply::Failed(MapError::Other)),
        Progress::Finish(Err(MapError::Other))
    );
    let new: Operation<u32, u64> = Operation::InsertNew(5, 50);
    assert_eq!(new.command(), Command::Update(5, 50, UpdateMode::NoExist));
}

#[test]
fn iteration_passes_over_a_key_that_is_gone() {
    let rest: Operation<u32, u64> = Operation::IterRest(1, vec![2].into(), vec![]);
    let Progress::Continue(rest) = rest.resume(Reply::Value(None)) else {
        panic!("one key is left");
    };
    assert_eq!(rest.command(), Command::Lookup(2));
    assert_eq!(
        rest.resume(Reply::Value(Some(20))),
        Progress::Finish(Ok(Outcome::Entries(vec![(2, 20)])))
    );
}

#[test]
fn the_last_value_of_a_batch_stays() {
    let kernel: KernelMap<u32, u64> = KernelMap::new(8);
    let map = HashMap::from_map(&kernel).unwrap();
    assert_eq!(map.insert_batch(&[(1, 1), (2, 2), (1, 3)]), Ok(()));
    assert_eq!(map.get(&1), Ok(Some(3)));
    assert_eq!(map.get(&2), Ok(Some(2)));
    assert_eq!(map.len(), 2);
}

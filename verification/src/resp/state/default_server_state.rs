//! The store that the server uses: entries in a list, no key twice.

use vstd::prelude::*;
use crate::resp::protocol::{frame_opt, outcome_of, reply_of, Frame, RespType};
use vstd::string::{StringExecFns, StringSliceAdditionalSpecFns};
use crate::resp::state::model::{
    append_model,
    clock_failure,
    del_model,
    deadline_in,
    deadline_ms,
    deadline_secs,
    has_deadline,
    seconds_left,
    exists_model,
    expire_model,
    get_model,
    get_range_model,
    get_set_model,
    length_frame,
    lists_keys,
    persist_model,
    purge,
    rename_if_exists_model,
    rename_model,
    set_model,
    set_range_model,
    step_model,
    ttl_model,
    type_of_model,
    Slot,
    StoreModel,
};
use crate::resp::state::server_state::ServerState;
use crate::resp::text::{overwrite_text, range_text, same_text};

verus! {

/// One key with its value and the time of its expiry, if it has one.
pub struct Entry {
    key: String,
    value: RespType,
    expires_at: Option<i128>,
}

impl Entry {
    /// What the store holds for this entry's key.
    pub closed spec fn slot(&self) -> Slot {
        Slot { value: self.value@, expires_at: self.expires_at }
    }

    /// This entry's key.
    pub closed spec fn key_text(&self) -> Seq<char> {
        self.key@
    }
}

/// Whether an entry with the key `key` stands at index `i` of `entries`.
pub open spec fn key_at(entries: Seq<Entry>, key: Seq<char>, i: int) -> bool {
    0 <= i < entries.len() && entries[i].key_text() == key
}

/// Whether no key occurs twice in `entries`.
pub open spec fn distinct_keys(entries: Seq<Entry>) -> bool {
    forall|i: int, j: int|
        0 <= i < entries.len() && 0 <= j < entries.len() && #[trigger] entries[i].key_text()
            == #[trigger] entries[j].key_text() ==> i == j
}

/// The map that a list of entries stands for.
pub open spec fn contents(entries: Seq<Entry>) -> StoreModel {
    Map::new(
        |key: Seq<char>| exists|i: int| key_at(entries, key, i),
        |key: Seq<char>| entries[choose|i: int| key_at(entries, key, i)].slot(),
    )
}

/// The keyed store of the server.
pub struct DefaultServerState {
    entries: Vec<Entry>,
}

impl View for DefaultServerState {
    type V = StoreModel;

    closed spec fn view(&self) -> StoreModel {
        contents(self.entries@)
    }
}

impl Default for DefaultServerState {
    /// The empty store.
    fn default() -> (r: Self)
        ensures
            r@ == Map::<Seq<char>, Slot>::empty(),
    {
        let r = DefaultServerState { entries: Vec::new() };
        assert(r@ =~= Map::<Seq<char>, Slot>::empty());
        r
    }
}

impl DefaultServerState {
    #[verifier::type_invariant]
    spec fn well_formed(&self) -> bool {
        distinct_keys(self.entries@)
    }

    /// Hands out the list of entries and leaves an empty one behind, so
    /// that the list can be changed step by step and put back whole.
    fn take_entries(&mut self) -> (entries: Vec<Entry>)
        ensures
            entries == old(self).entries,
            final(self).entries@ == Seq::<Entry>::empty(),
    {
        let mut entries: Vec<Entry> = Vec::new();
        core::mem::swap(&mut self.entries, &mut entries);
        entries
    }

    /// Finds the entry of `key`.
    fn find(&self, key: &str) -> (r: Option<usize>)
        ensures
            match r {
                Some(i) => key_at(self.entries@, key@, i as int),
                None => forall|i: int| !key_at(self.entries@, key@, i),
            },
    {
        let mut i: usize = 0;
        while i < self.entries.len()
            invariant
                i <= self.entries@.len(),
                forall|j: int| 0 <= j < i ==> !key_at(self.entries@, key@, j),
            decreases self.entries.len() - i,
        {
            if same_text(self.entries[i].key.as_str(), key) {
                return Some(i);
            }
            i = i + 1;
        }
        None
    }

    /// Puts `value` under `key`, in place of what was there.
    fn put(&mut self, key: String, value: RespType, expires_at: Option<i128>)
        ensures
            final(self)@ == old(self)@.insert(key@, Slot { value: value@, expires_at }),
    {
        proof {
            use_type_invariant(&*self);
        }
        let found = self.find(key.as_str());
        let ghost before = self.entries@;
        let entry = Entry { key, value, expires_at };
        let mut entries = self.take_entries();
        match found {
            Some(i) => {
                entries.set(i, entry);
            },
            None => {
                entries.push(entry);
            },
        }
        proof {
            lemma_contents_put(before, entries@, entry);
        }
        self.entries = entries;
    }

    /// Takes `key` out of the store and hands out its entry, if it has one.
    fn take(&mut self, key: &str) -> (r: Option<Entry>)
        ensures
            final(self)@ == old(self)@.remove(key@),
            match r {
                Some(entry) => old(self)@.contains_key(key@) && entry.slot() == old(self)@[key@]
                    && entry.key_text() == key@,
                None => !old(self)@.contains_key(key@),
            },
    {
        proof {
            use_type_invariant(&*self);
        }
        let ghost before = self.entries@;
        match self.find(key) {
            Some(i) => {
                let mut entries = self.take_entries();
                let entry = entries.remove(i);
                proof {
                    lemma_contents_at(before, key@, i as int);
                    lemma_contents_remove(before, i as int);
                }
                self.entries = entries;
                Some(entry)
            },
            None => {
                proof {
                    lemma_contents_absent(before, key@);
                    assert(self@ =~= self@.remove(key@));
                }
                None
            },
        }
    }

    /// Lazy expiry: takes `key` out of the store if it is due at the time
    /// `now`, and tells where its entry stands if it is still there.
    fn settle(&mut self, key: &str, now: u64) -> (r: Option<usize>)
        ensures
            final(self)@ == purge(old(self)@, key@, now),
            match r {
                Some(i) => key_at(final(self).entries@, key@, i as int) && final(self)@.contains_key(
                    key@,
                ) && final(self)@[key@] == final(self).entries@[i as int].slot(),
                None => !final(self)@.contains_key(key@),
            },
    {
        proof {
            use_type_invariant(&*self);
        }
        match self.find(key) {
            Some(i) => {
                proof {
                    lemma_contents_at(self.entries@, key@, i as int);
                }
                let due = match self.entries[i].expires_at {
                    Some(at) => at <= now as i128,
                    None => false,
                };
                if due {
                    let gone = self.take(key);
                    None
                } else {
                    Some(i)
                }
            },
            None => {
                proof {
                    lemma_contents_absent(self.entries@, key@);
                }
                None
            },
        }
    }

    /// Tells the time at which `key` expires, if it is there and is to
    /// expire.
    pub fn deadline_of(&self, key: &str) -> (r: Option<i128>)
        ensures
            r == deadline_in(self@, key@),
    {
        proof {
            use_type_invariant(self);
        }
        match self.find(key) {
            None => {
                proof {
                    lemma_contents_absent(self.entries@, key@);
                }
                None
            },
            Some(i) => {
                proof {
                    lemma_contents_at(self.entries@, key@, i as int);
                }
                self.entries[i].expires_at
            },
        }
    }

    /// Tells whether the store holds `key`, due or not.
    pub fn holds(&self, key: &str) -> (r: bool)
        ensures
            r == self@.contains_key(key@),
    {
        proof {
            use_type_invariant(self);
        }
        match self.find(key) {
            None => {
                proof {
                    lemma_contents_absent(self.entries@, key@);
                }
                false
            },
            Some(i) => {
                proof {
                    lemma_contents_at(self.entries@, key@, i as int);
                }
                true
            },
        }
    }

    /// Reads `key` at the time `now`. A key that is due counts as absent
    /// and leaves the store by this read.
    pub fn get_at(&mut self, key: &str, now: u64) -> (r: Option<RespType>)
        ensures
            (final(self)@, frame_opt(r)) == get_model(old(self)@, key@, now),
    {
        match self.settle(key, now) {
            Some(i) => Some(self.entries[i].value.clone()),
            None => None,
        }
    }

    /// Writes `value` under `key` at the time `now`. What was there is
    /// replaced, value and expiry; with a time to live the key expires that
    /// many milliseconds after `now`, and without one it does not expire.
    pub fn set_at(&mut self, key: String, value: RespType, ttl: Option<i64>, now: u64)
        ensures
            final(self)@ == set_model(old(self)@, key@, value@, ttl, now),
    {
        let expires_at = match ttl {
            Some(ttl_ms) => Some(deadline_after(now, ttl_ms)),
            None => None,
        };
        self.put(key, value, expires_at);
    }

    /// Tells whether `key` is there at the time `now`. A key that is due
    /// counts as absent and leaves the store by this check.
    pub fn exists_at(&mut self, key: &str, now: u64) -> (r: bool)
        ensures
            (final(self)@, r) == exists_model(old(self)@, key@, now),
    {
        self.settle(key, now).is_some()
    }

    /// Counts `key` up, or down where `up` is false, at the time `now`.
    fn step_at(&mut self, key: &str, up: bool, now: u64) -> (r: Result<i64, String>)
        ensures
            (final(self)@, outcome_of(r)) == step_model(
                old(self)@,
                key@,
                if up {
                    1
                } else {
                    -1
                },
                now,
            ),
    {
        let delta: i64 = if up {
            1
        } else {
            -1
        };
        match self.settle(key, now) {
            None => {
                self.put(key.to_owned(), RespType::Integer(delta), None);
                Ok(delta)
            },
            Some(i) => {
                let expires_at = self.entries[i].expires_at;
                match self.entries[i].value {
                    RespType::Integer(n) => {
                        if (up && n == i64::MAX) || (!up && n == i64::MIN) {
                            Err("Value is out of range".to_owned())
                        } else {
                            let next: i64 = n + delta;
                            self.put(key.to_owned(), RespType::Integer(next), expires_at);
                            Ok(next)
                        }
                    },
                    _ => Err("Value is not an integer".to_owned()),
                }
            },
        }
    }

    /// Counts `key` up by one at the time `now` and answers the new number.
    pub fn incr_at(&mut self, key: &str, now: u64) -> (r: Result<i64, String>)
        ensures
            (final(self)@, outcome_of(r)) == step_model(old(self)@, key@, 1, now),
    {
        self.step_at(key, true, now)
    }

    /// Counts `key` down by one at the time `now` and answers the new
    /// number.
    pub fn decr_at(&mut self, key: &str, now: u64) -> (r: Result<i64, String>)
        ensures
            (final(self)@, outcome_of(r)) == step_model(old(self)@, key@, -1, now),
    {
        self.step_at(key, false, now)
    }

    /// Gives `key` `seconds` seconds to live from the time `now`.
    pub fn expire_at(&mut self, key: &str, seconds: u64, now: u64) -> (r: Result<(), String>)
        ensures
            (final(self)@, outcome_of(r)) == expire_model(old(self)@, key@, seconds, now),
    {
        match self.settle(key, now) {
            None => Err("Key does not exist".to_owned()),
            Some(i) => {
                let value = self.entries[i].value.clone();
                let at = deadline_after_secs(now, seconds);
                self.put(key.to_owned(), value, Some(at));
                assert(self@ =~= expire_model(old(self)@, key@, seconds, now).0);
                Ok(())
            },
        }
    }

    /// Tells the whole seconds that `key` has left at the time `now`.
    pub fn ttl_at(&self, key: &str, now: u64) -> (r: Result<Option<u64>, String>)
        ensures
            outcome_of(r) == ttl_model(self@, key@, now),
    {
        proof {
            use_type_invariant(self);
        }
        match self.find(key) {
            None => {
                proof {
                    lemma_contents_absent(self.entries@, key@);
                }
                Err("Key does not exist".to_owned())
            },
            Some(i) => {
                proof {
                    lemma_contents_at(self.entries@, key@, i as int);
                }
                match self.entries[i].expires_at {
                    None => Ok(None),
                    Some(at) => Ok(Some(seconds_between(at, now))),
                }
            },
        }
    }

    /// Takes the expiry off `key` at the time `now`.
    pub fn persist_at(&mut self, key: &str, now: u64) -> (r: Result<(), String>)
        ensures
            (final(self)@, outcome_of(r)) == persist_model(old(self)@, key@, now),
    {
        match self.settle(key, now) {
            None => Err("Key does not exist".to_owned()),
            Some(i) => {
                let value = self.entries[i].value.clone();
                self.put(key.to_owned(), value, None);
                assert(self@ =~= persist_model(old(self)@, key@, now).0);
                Ok(())
            },
        }
    }

    /// Tells the kind of the value of `key` at the time `now`.
    pub fn type_of_at(&mut self, key: &str, now: u64) -> (r: Result<RespType, String>)
        ensures
            (final(self)@, reply_of(r)) == type_of_model(old(self)@, key@, now),
    {
        match self.settle(key, now) {
            None => Err("Key does not exist".to_owned()),
            Some(i) => {
                let name = match self.entries[i].value {
                    RespType::SimpleString(_) => "string",
                    RespType::Integer(_) => "integer",
                    RespType::BulkString(_) => "bulk_string",
                    RespType::Array(_) => "array",
                    RespType::Error(_) => "error",
                };
                Ok(RespType::SimpleString(name.to_owned()))
            },
        }
    }

    /// Moves what `old_key` holds to `new_key` at the time `now`.
    pub fn rename_at(&mut self, old_key: &str, new_key: &str, now: u64) -> (r: Result<(), String>)
        ensures
            (final(self)@, outcome_of(r)) == rename_model(old(self)@, old_key@, new_key@, now),
    {
        match self.settle(old_key, now) {
            None => Err("Key does not exist".to_owned()),
            Some(_) => {
                match self.take(old_key) {
                    Some(entry) => {
                        self.put(new_key.to_owned(), entry.value, entry.expires_at);
                        Ok(())
                    },
                    None => Err("Key does not exist".to_owned()),
                }
            },
        }
    }

    /// Moves what `old_key` holds to `new_key` at the time `now`, unless
    /// `new_key` holds something.
    pub fn rename_if_exists_at(&mut self, old_key: &str, new_key: &str, now: u64) -> (r: Result<
        (),
        String,
    >)
        ensures
            (final(self)@, outcome_of(r)) == rename_if_exists_model(
                old(self)@,
                old_key@,
                new_key@,
                now,
            ),
    {
        let source = self.settle(old_key, now);
        let target = self.settle(new_key, now);
        if source.is_none() {
            return Err("Old key does not exist".to_owned());
        }
        if target.is_some() {
            return Err("New key already exists".to_owned());
        }
        match self.take(old_key) {
            Some(entry) => {
                self.put(new_key.to_owned(), entry.value, entry.expires_at);
                Ok(())
            },
            None => Err("Old key does not exist".to_owned()),
        }
    }

    /// Puts the text `value` in place of the value of `key` at the time
    /// `now` and hands out the value that was there.
    pub fn get_set_at(&mut self, key: &str, value: &str, now: u64) -> (r: Result<RespType, String>)
        ensures
            (final(self)@, reply_of(r)) == get_set_model(old(self)@, key@, value@, now),
    {
        match self.settle(key, now) {
            None => Err("Key does not exist".to_owned()),
            Some(_) => {
                match self.take(key) {
                    Some(entry) => {
                        let ghost live = purge(old(self)@, key@, now);
                        self.put(
                            key.to_owned(),
                            RespType::BulkString(Some(value.to_owned())),
                            entry.expires_at,
                        );
                        assert(self@ =~= get_set_model(old(self)@, key@, value@, now).0);
                        Ok(entry.value)
                    },
                    None => Err("Key does not exist".to_owned()),
                }
            },
        }
    }

    /// Reads the bytes from `start` up to `end` of the text of `key` at the
    /// time `now`.
    pub fn get_range_at(&mut self, key: &str, start: i64, end: i64, now: u64) -> (r: Result<
        RespType,
        String,
    >)
        ensures
            (final(self)@, reply_of(r)) == get_range_model(old(self)@, key@, start, end, now),
    {
        match self.settle(key, now) {
            Some(i) => match &self.entries[i].value {
                RespType::BulkString(Some(text)) => match range_text(text.as_str(), start, end) {
                    Some(part) => Ok(RespType::BulkString(Some(part))),
                    None => Err("Range does not fall on character boundaries".to_owned()),
                },
                _ => Err("Key does not exist or is not a bulk string".to_owned()),
            },
            None => Err("Key does not exist or is not a bulk string".to_owned()),
        }
    }

    /// Writes the text `value` over the text of `key` from the byte
    /// `offset` on, at the time `now`, and answers the new length in bytes.
    pub fn set_range_at(&mut self, key: &str, offset: i64, value: &str, now: u64) -> (r: Result<
        RespType,
        String,
    >)
        ensures
            (final(self)@, reply_of(r)) == set_range_model(old(self)@, key@, offset, value@, now),
    {
        let at: u64 = if offset < 0 {
            0
        } else {
            offset as u64
        };
        let found = self.settle(key, now);
        let (joined, expires_at) = match found {
            None => (overwrite_text("", at, value), None),
            Some(i) => {
                let expires_at = self.entries[i].expires_at;
                match &self.entries[i].value {
                    RespType::BulkString(Some(text)) => (
                        overwrite_text(text.as_str(), at, value),
                        expires_at,
                    ),
                    RespType::BulkString(None) => (overwrite_text("", at, value), expires_at),
                    _ => {
                        return Err("Key exists but is not a bulk string".to_owned());
                    },
                }
            },
        };
        proof {
            reveal_strlit("");
            assert(""@ =~= Seq::<char>::empty());
        }
        match joined {
            None => Err("Offset does not fall on a character boundary".to_owned()),
            Some(text) => {
                let length = length_of(text.as_str());
                self.put(key.to_owned(), RespType::BulkString(Some(text)), expires_at);
                Ok(length)
            },
        }
    }

    /// Appends the text `value` to the text of `key` at the time `now` and
    /// answers the new length in bytes.
    pub fn append_at(&mut self, key: &str, value: &str, now: u64) -> (r: Result<RespType, String>)
        ensures
            (final(self)@, reply_of(r)) == append_model(old(self)@, key@, value@, now),
    {
        match self.settle(key, now) {
            None => {
                let length = length_of(value);
                self.put(key.to_owned(), RespType::BulkString(Some(value.to_owned())), None);
                Ok(length)
            },
            Some(i) => {
                let expires_at = self.entries[i].expires_at;
                let joined = match &self.entries[i].value {
                    RespType::BulkString(Some(before)) => {
                        let mut joined = before.clone();
                        joined.append(value);
                        joined
                    },
                    RespType::BulkString(None) => value.to_owned(),
                    _ => {
                        return Err("Key exists but is not a bulk string".to_owned());
                    },
                };
                let length = length_of(joined.as_str());
                self.put(key.to_owned(), RespType::BulkString(Some(joined)), expires_at);
                Ok(length)
            },
        }
    }
}

/// The texts of a list of keys.
pub open spec fn texts_of(keys: Seq<String>) -> Seq<Seq<char>> {
    keys.map_values(|key: String| key@)
}

/// The keys of a list of keys with their values.
pub open spec fn keys_of(pairs: Seq<(String, RespType)>) -> Seq<Seq<char>> {
    pairs.map_values(|pair: (String, RespType)| pair.0@)
}

impl ServerState for DefaultServerState {
    /// Reads `key`. A key that is absent reads as absent, and a key that is
    /// not to expire reads as its value, whatever the time; neither asks the
    /// clock. A key that is to expire is read at the time that the clock
    /// gives; without a clock it reads as absent and the store stays as it
    /// is.
    fn get(&mut self, key: &str) -> (r: Option<RespType>)
        ensures
            ({
                &&& has_deadline(old(self)@, key@)
                &&& final(self)@ == old(self)@
                &&& r is None
            }) || exists|now: u64|
                (final(self)@, frame_opt(r)) == #[trigger] get_model(old(self)@, key@, now),
            !has_deadline(old(self)@, key@) ==> final(self)@ == old(self)@ && frame_opt(r)
                == (if old(self)@.contains_key(key@) {
                Some(old(self)@[key@].value)
            } else {
                None
            }),
    {
        let now = match self.deadline_of(key) {
            None => 0,
            Some(_) => match current_time_ms() {
                Some(now) => now,
                None => {
                    return None;
                },
            },
        };
        let r = self.get_at(key, now);
        assert((self@, frame_opt(r)) == get_model(old(self)@, key@, now));
        r
    }

    /// Writes `value` under `key`. A time to live counts from the time
    /// that the clock gives; without a clock such a write fails and the
    /// store stays as it is. A write without a time to live always succeeds.
    fn set(&mut self, key: String, value: RespType, ttl: Option<i64>) -> (r: Result<(), String>)
        ensures
            match ttl {
                None => r is Ok && final(self)@ == set_model(old(self)@, key@, value@, None, 0),
                Some(_) => (final(self)@ == old(self)@ && outcome_of(r) == Err::<(), Seq<char>>(
                    clock_failure(),
                )) || (r is Ok && exists|now: u64|
                    final(self)@ == #[trigger] set_model(old(self)@, key@, value@, ttl, now)),
            },
    {
        let now = match ttl {
            None => 0,
            Some(_) => match current_time_ms() {
                Some(now) => now,
                None => {
                    return Err("Failed to get current time".to_owned());
                },
            },
        };
        self.set_at(key, value, ttl, now);
        Ok(())
    }

    /// Deletes `key`, whether it is there or not.
    fn del(&mut self, key: &str) -> (r: Result<(), String>)
        ensures
            r is Ok,
            final(self)@ == del_model(old(self)@, key@),
    {
        let gone = self.take(key);
        Ok(())
    }

    /// Tells whether `key` is there. A key that is absent is not there,
    /// and a key that is not to expire is there, whatever the time; neither
    /// asks the clock. A key that is to expire is checked at the time that
    /// the clock gives; without a clock the answer is no and the store stays
    /// as it is.
    fn key_exists(&mut self, key: &str) -> (r: bool)
        ensures
            ({
                &&& has_deadline(old(self)@, key@)
                &&& final(self)@ == old(self)@
                &&& !r
            }) || exists|now: u64|
                (final(self)@, r) == #[trigger] exists_model(old(self)@, key@, now),
            !has_deadline(old(self)@, key@) ==> final(self)@ == old(self)@ && r == old(
                self,
            )@.contains_key(key@),
    {
        let now = match self.deadline_of(key) {
            None => 0,
            Some(_) => match current_time_ms() {
                Some(now) => now,
                None => {
                    return false;
                },
            },
        };
        let r = self.exists_at(key, now);
        assert((self@, r) == exists_model(old(self)@, key@, now));
        r
    }

    /// Empties the store.
    fn flush(&mut self) -> (r: Result<(), String>)
        ensures
            r is Ok,
            final(self)@ == Map::<Seq<char>, Slot>::empty(),
    {
        self.entries = Vec::new();
        assert(self@ =~= Map::<Seq<char>, Slot>::empty());
        Ok(())
    }

    /// Lists the keys of the store, each once, due ones too.
    fn keys(&mut self) -> (r: Vec<String>)
        ensures
            final(self)@ == old(self)@,
            lists_keys(texts_of(r@), old(self)@),
    {
        proof {
            use_type_invariant(&*self);
        }
        let mut keys: Vec<String> = Vec::new();
        let mut i: usize = 0;
        while i < self.entries.len()
            invariant
                i <= self.entries@.len(),
                keys@.len() == i,
                forall|j: int| 0 <= j < i ==> (#[trigger] keys@[j])@ == self.entries@[j].key_text(),
            decreases self.entries.len() - i,
        {
            keys.push(self.entries[i].key.clone());
            i = i + 1;
        }
        proof {
            lemma_lists_keys(self.entries@, texts_of(keys@));
        }
        keys
    }

    /// Lists the keys of the store with their values, each key once, due
    /// ones too.
    fn get_all(&mut self) -> (r: Vec<(String, RespType)>)
        ensures
            final(self)@ == old(self)@,
            lists_keys(keys_of(r@), old(self)@),
            forall|i: int|
                0 <= i < r@.len() ==> old(self)@[(#[trigger] r@[i]).0@].value == r@[i].1@,
    {
        proof {
            use_type_invariant(&*self);
        }
        let mut pairs: Vec<(String, RespType)> = Vec::new();
        let mut i: usize = 0;
        while i < self.entries.len()
            invariant
                i <= self.entries@.len(),
                pairs@.len() == i,
                forall|j: int|
                    0 <= j < i ==> (#[trigger] pairs@[j]).0@ == self.entries@[j].key_text()
                        && pairs@[j].1@ == self.entries@[j].slot().value,
            decreases self.entries.len() - i,
        {
            pairs.push((self.entries[i].key.clone(), self.entries[i].value.clone()));
            i = i + 1;
        }
        proof {
            lemma_lists_keys(self.entries@, keys_of(pairs@));
            assert forall|i: int| 0 <= i < pairs@.len() implies self@[(#[trigger] pairs@[i]).0@].value
                == pairs@[i].1@ by {
                lemma_contents_at(self.entries@, pairs@[i].0@, i);
            }
        }
        pairs
    }

    /// Counts `key` up by one and answers the new number.
    /// A key that is not to expire is not asked the time; a key that is
    /// to expire is handled at the time that the clock gives, and without a
    /// clock the operation fails and the store stays as it is.
    fn incr(&mut self, key: &str) -> (r: Result<i64, String>)
        ensures
            ({
                &&& has_deadline(old(self)@, key@)
                &&& final(self)@ == old(self)@
                &&& outcome_of(r) == Err::<i64, Seq<char>>(clock_failure())
            }) || exists|now: u64|
                (final(self)@, outcome_of(r)) == #[trigger] step_model(old(self)@, key@, 1, now),
            !has_deadline(old(self)@, key@) ==> (final(self)@, outcome_of(r)) == step_model(
                old(self)@,
                key@,
                1,
                0,
            ),
    {
        let now = if self.deadline_of(key).is_some() {
            match current_time_ms() {
                Some(now) => now,
                None => {
                    return Err("Failed to get current time".to_owned());
                },
            }
        } else {
            0
        };
        self.incr_at(key, now)
    }

    /// Counts `key` down by one and answers the new number.
    /// A key that is not to expire is not asked the time; a key that is
    /// to expire is handled at the time that the clock gives, and without a
    /// clock the operation fails and the store stays as it is.
    fn decr(&mut self, key: &str) -> (r: Result<i64, String>)
        ensures
            ({
                &&& has_deadline(old(self)@, key@)
                &&& final(self)@ == old(self)@
                &&& outcome_of(r) == Err::<i64, Seq<char>>(clock_failure())
            }) || exists|now: u64|
                (final(self)@, outcome_of(r)) == #[trigger] step_model(old(self)@, key@, -1, now),
            !has_deadline(old(self)@, key@) ==> (final(self)@, outcome_of(r)) == step_model(
                old(self)@,
                key@,
                -1,
                0,
            ),
    {
        let now = if self.deadline_of(key).is_some() {
            match current_time_ms() {
                Some(now) => now,
                None => {
                    return Err("Failed to get current time".to_owned());
                },
            }
        } else {
            0
        };
        self.decr_at(key, now)
    }

    /// Gives `key` `seconds` seconds to live. A key that the store does not
    /// hold fails without a look at the clock. A key that is there gets its
    /// time counted from what the clock gives; without a clock the operation
    /// fails and the store stays as it is.
    fn expire(&mut self, key: &str, seconds: u64) -> (r: Result<(), String>)
        ensures
            ({
                &&& old(self)@.contains_key(key@)
                &&& final(self)@ == old(self)@
                &&& outcome_of(r) == Err::<(), Seq<char>>(clock_failure())
            }) || exists|now: u64|
                (final(self)@, outcome_of(r)) == #[trigger] expire_model(
                    old(self)@,
                    key@,
                    seconds,
                    now,
                ),
            !old(self)@.contains_key(key@) ==> final(self)@ == old(self)@ && outcome_of(r) == Err::<
                (),
                Seq<char>,
            >("Key does not exist"@),
    {
        if !self.holds(key) {
            let r = self.expire_at(key, seconds, 0);
            return r;
        }
        match current_time_ms() {
            Some(now) => self.expire_at(key, seconds, now),
            None => Err("Failed to get current time".to_owned()),
        }
    }

    /// Tells the whole seconds that `key` has left, and leaves the store as
    /// it is. A key that is not to expire is not asked the time; the time that
    /// a key has left is counted from what the clock gives, and without a
    /// clock the operation fails.
    fn ttl(&mut self, key: &str) -> (r: Result<Option<u64>, String>)
        ensures
            final(self)@ == old(self)@,
            ({
                &&& has_deadline(old(self)@, key@)
                &&& outcome_of(r) == Err::<Option<u64>, Seq<char>>(clock_failure())
            }) || exists|now: u64| outcome_of(r) == #[trigger] ttl_model(old(self)@, key@, now),
            !has_deadline(old(self)@, key@) ==> outcome_of(r) == ttl_model(old(self)@, key@, 0),
    {
        let now = if self.deadline_of(key).is_some() {
            match current_time_ms() {
                Some(now) => now,
                None => {
                    return Err("Failed to get current time".to_owned());
                },
            }
        } else {
            0
        };
        self.ttl_at(key, now)
    }

    /// Takes the expiry off `key`.
    /// A key that is not to expire is not asked the time; a key that is
    /// to expire is handled at the time that the clock gives, and without a
    /// clock the operation fails and the store stays as it is.
    fn persist(&mut self, key: &str) -> (r: Result<(), String>)
        ensures
            ({
                &&& has_deadline(old(self)@, key@)
                &&& final(self)@ == old(self)@
                &&& outcome_of(r) == Err::<(), Seq<char>>(clock_failure())
            }) || exists|now: u64|
                (final(self)@, outcome_of(r)) == #[trigger] persist_model(old(self)@, key@, now),
            !has_deadline(old(self)@, key@) ==> (final(self)@, outcome_of(r)) == persist_model(
                old(self)@,
                key@,
                0,
            ),
    {
        let now = if self.deadline_of(key).is_some() {
            match current_time_ms() {
                Some(now) => now,
                None => {
                    return Err("Failed to get current time".to_owned());
                },
            }
        } else {
            0
        };
        self.persist_at(key, now)
    }

    /// Tells the kind of the value of `key`.
    /// A key that is not to expire is not asked the time; a key that is
    /// to expire is handled at the time that the clock gives, and without a
    /// clock the operation fails and the store stays as it is.
    fn type_of(&mut self, key: &str) -> (r: Result<RespType, String>)
        ensures
            ({
                &&& has_deadline(old(self)@, key@)
                &&& final(self)@ == old(self)@
                &&& reply_of(r) == Err::<Frame, Seq<char>>(clock_failure())
            }) || exists|now: u64|
                (final(self)@, reply_of(r)) == #[trigger] type_of_model(old(self)@, key@, now),
            !has_deadline(old(self)@, key@) ==> (final(self)@, reply_of(r)) == type_of_model(
                old(self)@,
                key@,
                0,
            ),
    {
        let now = if self.deadline_of(key).is_some() {
            match current_time_ms() {
                Some(now) => now,
                None => {
                    return Err("Failed to get current time".to_owned());
                },
            }
        } else {
            0
        };
        self.type_of_at(key, now)
    }

    /// Moves what `old_key` holds to `new_key`. Where `old_key` is not to
    /// expire the time is not asked; else the move is made at the time that
    /// the clock gives, and without a clock the operation fails and the store
    /// stays as it is.
    fn rename(&mut self, old_key: &str, new_key: &str) -> (r: Result<(), String>)
        ensures
            ({
                &&& has_deadline(old(self)@, old_key@)
                &&& final(self)@ == old(self)@
                &&& outcome_of(r) == Err::<(), Seq<char>>(clock_failure())
            }) || exists|now: u64|
                (final(self)@, outcome_of(r)) == #[trigger] rename_model(
                    old(self)@,
                    old_key@,
                    new_key@,
                    now,
                ),
            !has_deadline(old(self)@, old_key@) ==> (final(self)@, outcome_of(r)) == rename_model(
                    old(self)@,
                    old_key@,
                    new_key@,
                    0,
                ),
    {
        let now = if self.deadline_of(old_key).is_some() {
            match current_time_ms() {
                Some(now) => now,
                None => {
                    return Err("Failed to get current time".to_owned());
                },
            }
        } else {
            0
        };
        self.rename_at(old_key, new_key, now)
    }

    /// Moves what `old_key` holds to `new_key`, unless `new_key` holds
    /// something. Where neither key is to expire the time is not asked; else
    /// the move is made at the time that the clock gives, and without a clock
    /// the operation fails and the store stays as it is.
    fn rename_if_exists(&mut self, old_key: &str, new_key: &str) -> (r: Result<(), String>)
        ensures
            ({
                &&& (has_deadline(old(self)@, old_key@) || has_deadline(old(self)@, new_key@))
                &&& final(self)@ == old(self)@
                &&& outcome_of(r) == Err::<(), Seq<char>>(clock_failure())
            }) || exists|now: u64|
                (final(self)@, outcome_of(r)) == #[trigger] rename_if_exists_model(
                    old(self)@,
                    old_key@,
                    new_key@,
                    now,
                ),
            !(has_deadline(old(self)@, old_key@) || has_deadline(old(self)@, new_key@)) ==> (
                final(self)@,
                outcome_of(r),
            ) == rename_if_exists_model(
                    old(self)@,
                    old_key@,
                    new_key@,
                    0,
                ),
    {
        let now = if self.deadline_of(old_key).is_some() || self.deadline_of(new_key).is_some() {
            match current_time_ms() {
                Some(now) => now,
                None => {
                    return Err("Failed to get current time".to_owned());
                },
            }
        } else {
            0
        };
        self.rename_if_exists_at(old_key, new_key, now)
    }

    /// Appends the text `value` to the text of `key` and answers the new
    /// length in bytes.
    /// A key that is not to expire is not asked the time; a key that is
    /// to expire is handled at the time that the clock gives, and without a
    /// clock the operation fails and the store stays as it is.
    fn append(&mut self, key: &str, value: &str) -> (r: Result<RespType, String>)
        ensures
            ({
                &&& has_deadline(old(self)@, key@)
                &&& final(self)@ == old(self)@
                &&& reply_of(r) == Err::<Frame, Seq<char>>(clock_failure())
            }) || exists|now: u64|
                (final(self)@, reply_of(r)) == #[trigger] append_model(
                    old(self)@,
                    key@,
                    value@,
                    now,
                ),
            !has_deadline(old(self)@, key@) ==> (final(self)@, reply_of(r)) == append_model(
                    old(self)@,
                    key@,
                    value@,
                    0,
                ),
    {
        let now = if self.deadline_of(key).is_some() {
            match current_time_ms() {
                Some(now) => now,
                None => {
                    return Err("Failed to get current time".to_owned());
                },
            }
        } else {
            0
        };
        self.append_at(key, value, now)
    }

    /// Reads the bytes from `start` up to `end` of the text of `key`.
    /// A key that is not to expire is not asked the time; a key that is
    /// to expire is handled at the time that the clock gives, and without a
    /// clock the operation fails and the store stays as it is.
    fn get_range(&mut self, key: &str, start: i64, end: i64) -> (r: Result<RespType, String>)
        ensures
            ({
                &&& has_deadline(old(self)@, key@)
                &&& final(self)@ == old(self)@
                &&& reply_of(r) == Err::<Frame, Seq<char>>(clock_failure())
            }) || exists|now: u64|
                (final(self)@, reply_of(r)) == #[trigger] get_range_model(
                    old(self)@,
                    key@,
                    start,
                    end,
                    now,
                ),
            !has_deadline(old(self)@, key@) ==> (final(self)@, reply_of(r)) == get_range_model(
                    old(self)@,
                    key@,
                    start,
                    end,
                    0,
                ),
    {
        let now = if self.deadline_of(key).is_some() {
            match current_time_ms() {
                Some(now) => now,
                None => {
                    return Err("Failed to get current time".to_owned());
                },
            }
        } else {
            0
        };
        self.get_range_at(key, start, end, now)
    }

    /// Writes the text `value` over the text of `key` from the byte `offset`
    /// on, and answers the new length in bytes.
    /// A key that is not to expire is not asked the time; a key that is
    /// to expire is handled at the time that the clock gives, and without a
    /// clock the operation fails and the store stays as it is.
    fn set_range(&mut self, key: &str, offset: i64, value: &str) -> (r: Result<RespType, String>)
        ensures
            ({
                &&& has_deadline(old(self)@, key@)
                &&& final(self)@ == old(self)@
                &&& reply_of(r) == Err::<Frame, Seq<char>>(clock_failure())
            }) || exists|now: u64|
                (final(self)@, reply_of(r)) == #[trigger] set_range_model(
                    old(self)@,
                    key@,
                    offset,
                    value@,
                    now,
                ),
            !has_deadline(old(self)@, key@) ==> (final(self)@, reply_of(r)) == set_range_model(
                    old(self)@,
                    key@,
                    offset,
                    value@,
                    0,
                ),
    {
        let now = if self.deadline_of(key).is_some() {
            match current_time_ms() {
                Some(now) => now,
                None => {
                    return Err("Failed to get current time".to_owned());
                },
            }
        } else {
            0
        };
        self.set_range_at(key, offset, value, now)
    }

    /// Puts the text `value` in place of the value of `key` and hands out
    /// the value that was there.
    /// A key that is not to expire is not asked the time; a key that is
    /// to expire is handled at the time that the clock gives, and without a
    /// clock the operation fails and the store stays as it is.
    fn get_set(&mut self, key: &str, value: &str) -> (r: Result<RespType, String>)
        ensures
            ({
                &&& has_deadline(old(self)@, key@)
                &&& final(self)@ == old(self)@
                &&& reply_of(r) == Err::<Frame, Seq<char>>(clock_failure())
            }) || exists|now: u64|
                (final(self)@, reply_of(r)) == #[trigger] get_set_model(
                    old(self)@,
                    key@,
                    value@,
                    now,
                ),
            !has_deadline(old(self)@, key@) ==> (final(self)@, reply_of(r)) == get_set_model(
                    old(self)@,
                    key@,
                    value@,
                    0,
                ),
    {
        let now = if self.deadline_of(key).is_some() {
            match current_time_ms() {
                Some(now) => now,
                None => {
                    return Err("Failed to get current time".to_owned());
                },
            }
        } else {
            0
        };
        self.get_set_at(key, value, now)
    }
}

/// The keys of the entries, in their order, list the keys of the contents.
proof fn lemma_lists_keys(entries: Seq<Entry>, keys: Seq<Seq<char>>)
    requires
        distinct_keys(entries),
        keys.len() == entries.len(),
        forall|i: int| 0 <= i < entries.len() ==> #[trigger] keys[i] == entries[i].key_text(),
    ensures
        lists_keys(keys, contents(entries)),
{
    assert forall|i: int, j: int| 0 <= i < keys.len() && 0 <= j < keys.len() && i != j implies keys[i]
        != keys[j] by {
        assert(entries[i].key_text() == keys[i]);
        assert(entries[j].key_text() == keys[j]);
    }
    assert forall|key: Seq<char>| keys.contains(key) <==> contents(entries).contains_key(key) by {
        if keys.contains(key) {
            let i = choose|i: int| 0 <= i < keys.len() && keys[i] == key;
            assert(key_at(entries, key, i));
        }
        if contents(entries).contains_key(key) {
            let i = choose|i: int| key_at(entries, key, i);
            assert(keys[i] == key);
        }
    }
}

/// A reading of the system clock. Nothing of it is known here; it is
/// declared so that one call can hand it to the next.
#[verifier::external_type_specification]
#[verifier::external_body]
pub struct ExSystemTime(std::time::SystemTime);

/// Reads the system clock.
///
/// Trusted: this is `std::time::SystemTime::now`. Nothing is claimed of
/// the result.
#[verifier::external_body]
fn clock_reading() -> (r: std::time::SystemTime) {
    std::time::SystemTime::now()
}

/// The time that has passed from the epoch to a reading of the clock.
///
/// Trusted: this is `std::time::SystemTime::duration_since`, from
/// `std::time::UNIX_EPOCH`. Nothing is claimed of the result; it is absent
/// where the reading lies before the epoch.
#[verifier::external_body]
fn since_epoch(reading: &std::time::SystemTime) -> (r: Option<core::time::Duration>) {
    match reading.duration_since(std::time::UNIX_EPOCH) {
        Ok(elapsed) => Some(elapsed),
        Err(_) => None,
    }
}

/// The whole milliseconds of a span of time.
///
/// Trusted: this is `core::time::Duration::as_millis`. Nothing is claimed
/// of the result.
#[verifier::external_body]
fn whole_millis(elapsed: &core::time::Duration) -> (r: u128) {
    elapsed.as_millis()
}

/// Reads the clock: the milliseconds that have passed since the epoch,
/// kept within the range of the clock. There is no time where the system
/// clock stands before the epoch. Nothing holds of every reading, so
/// nothing is promised of the result.
pub(crate) fn current_time_ms() -> (r: Option<u64>) {
    let reading = clock_reading();
    match since_epoch(&reading) {
        Some(elapsed) => Some(clock_millis(whole_millis(&elapsed))),
        None => None,
    }
}

/// A count of milliseconds within the range of the clock: itself where it
/// fits, and the last time that the clock can show where it does not.
pub open spec fn clamp_millis(millis: u128) -> u64 {
    if millis > u64::MAX {
        u64::MAX
    } else {
        millis as u64
    }
}

/// Keeps a count of milliseconds within the range of the clock.
pub fn clock_millis(millis: u128) -> (r: u64)
    ensures
        r == clamp_millis(millis),
{
    if millis > 18446744073709551615u128 {
        u64::MAX
    } else {
        millis as u64
    }
}

/// The length of a text in bytes, as an integer frame.
pub fn length_of(text: &str) -> (r: RespType)
    ensures
        r@ == length_frame(text.spec_bytes().len()),
{
    let n: u64 = text.as_bytes().len() as u64;
    if n > 9223372036854775807u64 {
        RespType::Integer(i64::MAX)
    } else {
        RespType::Integer(n as i64)
    }
}

/// The time `seconds` seconds after `now`.
pub fn deadline_after_secs(now: u64, seconds: u64) -> (r: i128)
    ensures
        r == deadline_secs(now, seconds),
{
    now as i128 + seconds as i128 * 1000
}

/// The time `ttl_ms` milliseconds after `now`.
pub fn deadline_after(now: u64, ttl_ms: i64) -> (r: i128)
    ensures
        r == deadline_ms(now, ttl_ms),
{
    now as i128 + ttl_ms as i128
}

/// The whole seconds from the time `now` to the time `at`.
pub fn seconds_between(at: i128, now: u64) -> (r: u64)
    ensures
        r == seconds_left(at, now),
{
    if at <= now as i128 {
        0
    } else {
        let seconds: i128 = (at - now as i128) / 1000;
        if seconds > 18446744073709551615i128 {
            u64::MAX
        } else {
            seconds as u64
        }
    }
}

/// Where a key stands in the list, the contents hold its entry.
proof fn lemma_contents_at(entries: Seq<Entry>, key: Seq<char>, i: int)
    requires
        distinct_keys(entries),
        key_at(entries, key, i),
    ensures
        contents(entries).contains_key(key),
        contents(entries)[key] == entries[i].slot(),
{
    let j = choose|j: int| key_at(entries, key, j);
    assert(entries[i].key_text() == entries[j].key_text());
}

/// A key that stands nowhere in the list is not in the contents.
proof fn lemma_contents_absent(entries: Seq<Entry>, key: Seq<char>)
    requires
        forall|i: int| !key_at(entries, key, i),
    ensures
        !contents(entries).contains_key(key),
{
}

/// What taking an entry out of the list does to the contents.
proof fn lemma_contents_remove(before: Seq<Entry>, i: int)
    requires
        distinct_keys(before),
        0 <= i < before.len(),
    ensures
        distinct_keys(before.remove(i)),
        contents(before.remove(i)) == contents(before).remove(before[i].key_text()),
{
    let after = before.remove(i);
    let key = before[i].key_text();
    assert forall|a: int, b: int|
        0 <= a < after.len() && 0 <= b < after.len() && #[trigger] after[a].key_text()
            == #[trigger] after[b].key_text() implies a == b by {
        let a0 = if a < i { a } else { a + 1 };
        let b0 = if b < i { b } else { b + 1 };
        assert(after[a] == before[a0]);
        assert(after[b] == before[b0]);
        assert(before[a0].key_text() == before[b0].key_text());
    }
    assert forall|k: Seq<char>| #[trigger] contents(after).contains_key(k) <==> (contents(
        before,
    ).contains_key(k) && k != key) by {
        if contents(after).contains_key(k) {
            let a = choose|a: int| key_at(after, k, a);
            let a0 = if a < i { a } else { a + 1 };
            assert(after[a] == before[a0]);
            assert(key_at(before, k, a0));
            if k == key {
                assert(before[a0].key_text() == before[i].key_text());
            }
        }
        if contents(before).contains_key(k) && k != key {
            let b0 = choose|b: int| key_at(before, k, b);
            let b = if b0 < i { b0 } else { b0 - 1 };
            assert(after[b] == before[b0]);
            assert(key_at(after, k, b));
        }
    }
    assert forall|k: Seq<char>| #[trigger] contents(after).contains_key(k) implies contents(
        after,
    )[k] == contents(before)[k] by {
        let a = choose|a: int| key_at(after, k, a);
        let a0 = if a < i { a } else { a + 1 };
        assert(after[a] == before[a0]);
        assert(key_at(before, k, a0));
        lemma_contents_at(before, k, a0);
    }
    assert(contents(after) =~= contents(before).remove(key));
}

/// What putting an entry does to the contents.
proof fn lemma_contents_put(before: Seq<Entry>, after: Seq<Entry>, entry: Entry)
    requires
        distinct_keys(before),
        (exists|i: int| key_at(before, entry.key_text(), i) && after == before.update(i, entry))
            || ((forall|i: int| !key_at(before, entry.key_text(), i)) && after == before.push(
            entry,
        )),
    ensures
        distinct_keys(after),
        contents(after) == contents(before).insert(entry.key_text(), entry.slot()),
{
    let key = entry.key_text();
    if exists|i: int| key_at(before, key, i) && after == before.update(i, entry) {
        let i = choose|i: int| key_at(before, key, i) && after == before.update(i, entry);
        assert forall|k: Seq<char>, j: int| key_at(after, k, j) <==> key_at(before, k, j) by {
            if 0 <= j < before.len() {
                assert(after[j].key_text() == before[j].key_text());
            }
        }
        assert forall|k: Seq<char>| #[trigger] contents(after).contains_key(k) implies contents(
            after,
        )[k] == contents(before).insert(key, entry.slot())[k] by {
            let j = choose|j: int| key_at(after, k, j);
            assert(key_at(before, k, j));
            let j2 = choose|j: int| key_at(before, k, j);
            assert(j == j2);
        }
        assert(contents(before).contains_key(key));
        assert(contents(after) =~= contents(before).insert(key, entry.slot()));
        assert forall|a: int, b: int|
            0 <= a < after.len() && 0 <= b < after.len() && #[trigger] after[a].key_text()
                == #[trigger] after[b].key_text() implies a == b by {
            assert(after[a].key_text() == before[a].key_text());
            assert(after[b].key_text() == before[b].key_text());
        }
    } else {
        let n = before.len() as int;
        assert(key_at(after, key, n));
        assert forall|k: Seq<char>, j: int| key_at(after, k, j) <==> (key_at(before, k, j) || (k
            == key && j == n)) by {
            if 0 <= j < n {
                assert(after[j] == before[j]);
            }
        }
        assert forall|k: Seq<char>| #[trigger] contents(after).contains_key(k) implies contents(
            after,
        )[k] == contents(before).insert(key, entry.slot())[k] by {
            let j = choose|j: int| key_at(after, k, j);
            if k != key {
                let j2 = choose|j: int| key_at(before, k, j);
                assert(key_at(before, k, j));
                assert(j == j2);
            }
        }
        assert(contents(after) =~= contents(before).insert(key, entry.slot()));
        assert forall|a: int, b: int|
            0 <= a < after.len() && 0 <= b < after.len() && #[trigger] after[a].key_text()
                == #[trigger] after[b].key_text() implies a == b by {
            if a < n && b < n {
                assert(after[a].key_text() == before[a].key_text());
                assert(after[b].key_text() == before[b].key_text());
            } else if a < n {
                assert(key_at(before, key, a));
            } else if b < n {
                assert(key_at(before, key, b));
            }
        }
    }
}

} // verus!

use super::handle::ProcessHandle;
use super::single::{Process, ProcessView};
use super::state::{ProcessFault, ProcessState};
use crate::util::text;
use crate::util::text::same_text;
use vstd::prelude::*;
use vstd::string::*;

verus! {

/// Processes by name.
pub struct ProcessPool {
    log_capacity: usize,
    keys: Vec<String>,
    items: Vec<Process>,
}

impl View for ProcessPool {
    type V = Map<Seq<char>, ProcessView>;

    closed spec fn view(&self) -> Map<Seq<char>, ProcessView> {
        Map::new(
            |key: Seq<char>| text::texts(self.keys@).contains(key),
            |key: Seq<char>| self.items@[text::texts(self.keys@).index_of(key)]@,
        )
    }
}

impl ProcessPool {
    /// One process for each name, no name twice, and room in every history.
    pub closed spec fn wf(self) -> bool {
        &&& self.log_capacity > 0
        &&& self.keys@.len() == self.items@.len()
        &&& text::texts(self.keys@).no_duplicates()
        &&& forall|i: int| 0 <= i < self.items@.len() ==> (#[trigger] self.items@[i]).wf()
    }

    /// How many lines each history keeps.
    pub closed spec fn capacity(self) -> usize {
        self.log_capacity
    }

    proof fn lemma_at(self, i: int)
        requires
            self.wf(),
            0 <= i < self.keys@.len(),
        ensures
            self@.contains_key(self.keys@[i]@),
            self@[self.keys@[i]@] == self.items@[i]@,
            text::texts(self.keys@).index_of(self.keys@[i]@) == i,
    {
        let texts = text::texts(self.keys@);
        assert(texts[i] == self.keys@[i]@);
        assert(texts.contains(texts[i]));
        assert(texts[texts.index_of(texts[i])] == texts[i]);
    }

    /// A pool with nothing in it, whose processes keep `log_capacity` lines
    /// each.
    pub fn new(log_capacity: usize) -> (pool: Self)
        requires
            log_capacity > 0,
        ensures
            pool.wf(),
            pool.capacity() == log_capacity,
            pool@ == Map::<Seq<char>, ProcessView>::empty(),
    {
        let pool = ProcessPool { log_capacity, keys: Vec::new(), items: Vec::new() };
        assert(pool@ =~= Map::<Seq<char>, ProcessView>::empty());
        pool
    }

    /// Where the process called `key` is kept.
    fn find(&self, key: &str) -> (at: Option<usize>)
        requires
            self.wf(),
        ensures
            match at {
                Some(at) => at < self.keys@.len() && self.keys@[at as int]@ == key@,
                None => !self@.contains_key(key@),
            },
    {
        let mut at: usize = 0;
        while at < self.keys.len()
            invariant
                self.wf(),
                at <= self.keys@.len(),
                forall|i: int| 0 <= i < at ==> (#[trigger] self.keys@[i])@ != key@,
            decreases self.keys@.len() - at,
        {
            if same_text(self.keys[at].as_str(), key) {
                return Some(at);
            }
            at = at + 1;
        }
        proof {
            let texts = text::texts(self.keys@);
            if texts.contains(key@) {
                let i = texts.index_of(key@);
                assert(texts[i] == self.keys@[i]@);
            }
        }
        None
    }

    /// Where the process called `key` is kept, or why it cannot be had.
    fn get_proc(&self, key: &str) -> (at: Result<usize, ProcessFault>)
        requires
            self.wf(),
        ensures
            match at {
                Ok(at) => {
                    &&& at < self.items@.len()
                    &&& self.keys@[at as int]@ == key@
                    &&& self@.contains_key(key@)
                    &&& self@[key@] == self.items@[at as int]@
                },
                Err(fault) => {
                    &&& !self@.contains_key(key@)
                    &&& fault matches ProcessFault::Invalid(name) && name@ == key@
                },
            },
    {
        match self.find(key) {
            Some(at) => {
                proof {
                    self.lemma_at(at as int);
                }
                Ok(at)
            },
            None => Err(ProcessFault::Invalid(text::owned(key))),
        }
    }

    proof fn lemma_updated(self, before: Self, at: int)
        requires
            before.wf(),
            self.keys == before.keys,
            self.log_capacity == before.log_capacity,
            0 <= at < before.items@.len(),
            self.items@ == before.items@.update(at, self.items@[at]),
            self.items@[at].wf(),
        ensures
            self.wf(),
            self@ == before@.insert(before.keys@[at]@, self.items@[at]@),
    {
        before.lemma_at(at);
        let texts = text::texts(self.keys@);
        assert forall|key: Seq<char>| texts.contains(key) implies self@[key] == before@.insert(
            before.keys@[at]@,
            self.items@[at]@,
        )[key] by {
            let i = texts.index_of(key);
            assert(texts[i] == key);
            assert(texts[at] == before.keys@[at]@);
        }
        assert(self@ =~= before@.insert(before.keys@[at]@, self.items@[at]@));
    }

    /// Put a process under `key`, in place of whatever was there.
    pub fn add(&mut self, key: String, command: Vec<String>)
        requires
            old(self).wf(),
        ensures
            final(self).wf(),
            final(self).capacity() == old(self).capacity(),
            final(self)@ == old(self)@.insert(
                key@,
                ProcessView { command: text::texts(command@), run: None },
            ),
    {
        let ghost before = *self;
        let process = Process::new(self.log_capacity, command);
        let ghost item = process;
        match self.find(key.as_str()) {
            Some(at) => {
                self.items.set(at, process);
                proof {
                    self.lemma_updated(before, at as int);
                }
            },
            None => {
                let ghost name = key;
                self.keys.push(key);
                self.items.push(process);
                proof {
                    let old_texts = text::texts(before.keys@);
                    let texts = text::texts(self.keys@);
                    assert(texts =~= old_texts.push(name@));
                    assert(!old_texts.contains(name@));
                    assert forall|i: int, j: int|
                        0 <= i < texts.len() && 0 <= j < texts.len() && i != j implies texts[i]
                        != texts[j] by {
                        if i == texts.len() - 1 && texts[j] == name@ {
                            assert(old_texts[j] == name@);
                        }
                        if j == texts.len() - 1 && texts[i] == name@ {
                            assert(old_texts[i] == name@);
                        }
                    }
                    self.lemma_at(texts.len() - 1);
                    assert forall|other: Seq<char>|
                        texts.contains(other) == (other == name@ || old_texts.contains(
                            other,
                        )) by {
                        if texts.contains(other) && other != name@ {
                            let i = texts.index_of(other);
                            assert(old_texts[i] == other);
                        }
                        if old_texts.contains(other) {
                            let i = old_texts.index_of(other);
                            assert(texts[i] == other);
                        }
                        assert(texts[texts.len() - 1] == name@);
                    }
                    assert forall|other: Seq<char>| old_texts.contains(other) implies self@[other]
                        == before@[other] by {
                        let i = old_texts.index_of(other);
                        assert(texts[i] == other);
                        self.lemma_at(i);
                        before.lemma_at(i);
                    }
                    assert(self@ =~= before@.insert(name@, item@));
                }
            },
        }
    }

    /// Start the process called `key`, unless a run of it is in flight.
    /// Reports whether a run was asked for.
    pub fn start(&mut self, key: &str) -> (spawns: Result<bool, ProcessFault>)
        requires
            old(self).wf(),
        ensures
            final(self).wf(),
            final(self).capacity() == old(self).capacity(),
            if !old(self)@.contains_key(key@) {
                &&& spawns matches Err(ProcessFault::Invalid(name)) && name@ == key@
                &&& final(self)@ == old(self)@
            } else {
                let process = old(self)@[key@];
                &&& spawns == if !process.spawns() {
                    Ok(false)
                } else if process.command.len() == 0 {
                    Err::<bool, ProcessFault>(ProcessFault::NoCommands)
                } else {
                    Ok(true)
                }
                &&& final(self)@ == old(self)@.insert(
                    key@,
                    if process.spawns() {
                        process.restarted()
                    } else {
                        process
                    },
                )
            },
    {
        let ghost before = *self;
        match self.get_proc(key) {
            Ok(at) => {
                let spawns = self.items[at].start();
                proof {
                    self.lemma_updated(before, at as int);
                }
                spawns
            },
            Err(fault) => Err(fault),
        }
    }

    /// Where the process called `key` is.
    pub fn state(&self, key: &str) -> (state: Option<ProcessState>)
        requires
            self.wf(),
        ensures
            state == if self@.contains_key(key@) {
                Some(self@[key@].state())
            } else {
                None
            },
    {
        match self.get_proc(key) {
            Ok(at) => Some(self.items[at].state()),
            Err(_) => None,
        }
    }

    /// Stop the process called `key`, handing back the run that is to be told
    /// to end.
    pub fn stop(&mut self, key: &str) -> (run: Result<Option<ProcessHandle>, ProcessFault>)
        requires
            old(self).wf(),
        ensures
            final(self).wf(),
            final(self).capacity() == old(self).capacity(),
            if !old(self)@.contains_key(key@) {
                &&& run matches Err(ProcessFault::Invalid(name)) && name@ == key@
                &&& final(self)@ == old(self)@
            } else {
                &&& run == Ok::<Option<ProcessHandle>, ProcessFault>(old(self)@[key@].run)
                &&& final(self)@ == old(self)@.insert(
                    key@,
                    ProcessView { run: None, ..old(self)@[key@] },
                )
            },
    {
        let ghost before = *self;
        match self.get_proc(key) {
            Ok(at) => {
                let run = self.items[at].stop();
                proof {
                    self.lemma_updated(before, at as int);
                }
                Ok(run)
            },
            Err(fault) => Err(fault),
        }
    }

    /// Start the process called `key` over, in place of whatever run it had.
    pub fn restart(&mut self, key: &str) -> (spawned: Result<(), ProcessFault>)
        requires
            old(self).wf(),
        ensures
            final(self).wf(),
            final(self).capacity() == old(self).capacity(),
            if !old(self)@.contains_key(key@) {
                &&& spawned matches Err(ProcessFault::Invalid(name)) && name@ == key@
                &&& final(self)@ == old(self)@
            } else {
                &&& spawned == if old(self)@[key@].command.len() == 0 {
                    Err::<(), ProcessFault>(ProcessFault::NoCommands)
                } else {
                    Ok(())
                }
                &&& final(self)@ == old(self)@.insert(key@, old(self)@[key@].restarted())
            },
    {
        let ghost before = *self;
        match self.get_proc(key) {
            Ok(at) => {
                let spawned = self.items[at].restart();
                proof {
                    self.lemma_updated(before, at as int);
                }
                spawned
            },
            Err(fault) => Err(fault),
        }
    }
}

} // verus!

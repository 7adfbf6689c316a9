use crate::address::Address;
use vstd::prelude::*;

verus! {

/// The code of the contracts of a transaction, by address.
pub struct BytecodeCache {
    /// The addresses with their code, each address once, in the order in
    /// which they came.
    pub cache: Vec<(Address, Vec<u8>)>,
}

/// Index of the first entry from `from` on that is for `address`.
pub open spec fn entry_of(cache: Seq<(Address, Vec<u8>)>, address: Seq<u8>, from: int) -> Option<
    int,
>
    decreases cache.len() - from,
{
    if from < 0 || from >= cache.len() {
        None
    } else if cache[from].0@ == address {
        Some(from)
    } else {
        entry_of(cache, address, from + 1)
    }
}

/// One step of a node's struct log, with the fields that a node may
/// leave out.
#[derive(Clone, Debug)]
pub struct StructLog {
    pub pc: Option<u64>,
    pub op: Option<String>,
    pub stack: Option<Vec<String>>,
    pub depth: Option<u64>,
    pub gas: Option<u64>,
    pub gas_cost: Option<u64>,
}

/// One step of a trace that is put together from a struct log and the
/// answer of the address tracer.
#[derive(Clone, Debug)]
pub struct MergedStep<A> {
    pub pc: u64,
    pub op: String,
    pub stack: Vec<String>,
    pub depth: u64,
    pub gas: Option<u64>,
    pub gas_cost: Option<u64>,
    pub address: Option<A>,
}

/// The entry that a search finds is for the address that was looked for.
pub proof fn lemma_entry_of(cache: Seq<(Address, Vec<u8>)>, address: Seq<u8>, from: int)
    requires
        0 <= from,
    ensures
        entry_of(cache, address, from) is Some ==> from <= entry_of(cache, address, from)->0
            < cache.len() && cache[entry_of(cache, address, from)->0].0@ == address,
        entry_of(cache, address, from) is Some ==> forall|i: int|
            from <= i < entry_of(cache, address, from)->0 ==> (#[trigger] cache[i]).0@ != address,
        entry_of(cache, address, from) is None ==> forall|i: int|
            from <= i < cache.len() ==> (#[trigger] cache[i]).0@ != address,
    decreases cache.len() - from,
{
    if from < cache.len() && cache[from].0@ != address {
        lemma_entry_of(cache, address, from + 1);
    }
}

/// A search finds the first entry for the address.
proof fn lemma_entry_of_first(cache: Seq<(Address, Vec<u8>)>, address: Seq<u8>, from: int, at: int)
    requires
        0 <= from <= at < cache.len(),
        cache[at].0@ == address,
        forall|k: int| from <= k < at ==> (#[trigger] cache[k]).0@ != address,
    ensures
        entry_of(cache, address, from) == Some(at),
    decreases at - from,
{
    if from < at {
        assert(cache[from].0@ != address);
        lemma_entry_of_first(cache, address, from + 1, at);
    }
}

/// A search finds the same where the entries are for the same addresses
/// up to where it stops.
proof fn lemma_entry_of_same(
    a: Seq<(Address, Vec<u8>)>,
    b: Seq<(Address, Vec<u8>)>,
    address: Seq<u8>,
    from: int,
)
    requires
        0 <= from,
        a.len() <= b.len(),
        forall|i: int| 0 <= i < a.len() ==> (#[trigger] a[i]).0@ == b[i].0@,
        forall|i: int| a.len() <= i < b.len() ==> (#[trigger] b[i]).0@ != address,
    ensures
        entry_of(a, address, from) == entry_of(b, address, from),
    decreases b.len() - from,
{
    if from < a.len() {
        assert(a[from].0@ == b[from].0@);
        if a[from].0@ != address {
            lemma_entry_of_same(a, b, address, from + 1);
        }
    } else if from < b.len() {
        assert(b[from].0@ != address);
        lemma_entry_of_same(a, b, address, from + 1);
    }
}

impl BytecodeCache {
    /// No two entries are for the same address.
    pub open spec fn wf(&self) -> bool {
        forall|i: int, j: int|
            0 <= i < j < self.cache.len() ==> (#[trigger] self.cache[i]).0@ != (
            #[trigger] self.cache[j]).0@
    }

    /// The code that the cache holds for `address`: that of the first
    /// entry for it.
    pub open spec fn code_of(&self, address: Seq<u8>) -> Option<Seq<u8>> {
        match entry_of(self.cache@, address, 0) {
            Some(i) => Some(self.cache[i].1@),
            None => None,
        }
    }

    /// A cache without entries.
    pub fn new() -> (cache: Self)
        ensures
            cache.wf(),
            cache.cache.len() == 0,
            forall|a: Seq<u8>| cache.code_of(a) is None,
    {
        BytecodeCache { cache: Vec::new() }
    }

    /// Index of the first entry for `address`.
    fn position(&self, address: &Address) -> (found: Option<usize>)
        ensures
            found is Some == entry_of(self.cache@, address@, 0) is Some,
            found is Some ==> found->0 == entry_of(self.cache@, address@, 0)->0,
            found is Some ==> found->0 < self.cache.len() && self.cache[found->0 as int].0@
                == address@,
            found is None ==> forall|i: int|
                0 <= i < self.cache.len() ==> (#[trigger] self.cache[i]).0@ != address@,
    {
        let mut i: usize = 0;
        while i < self.cache.len()
            invariant
                i <= self.cache.len(),
                entry_of(self.cache@, address@, 0) == entry_of(self.cache@, address@, i as int),
                forall|k: int| 0 <= k < i ==> (#[trigger] self.cache[k]).0@ != address@,
            decreases self.cache.len() - i,
        {
            if self.cache[i].0.same(address) {
                return Some(i);
            }
            i = i + 1;
        }
        None
    }

    /// The code that the cache holds for `address`.
    pub fn get(&self, address: &Address) -> (code: Option<&Vec<u8>>)
        ensures
            code is Some == self.code_of(address@) is Some,
            code is Some ==> code->0@ == self.code_of(address@)->0,
    {
        match self.position(address) {
            Some(i) => Some(&self.cache[i].1),
            None => None,
        }
    }

    /// Puts the code for `address` into the cache, in place of what the
    /// cache held for it.
    pub fn insert(&mut self, address: Address, bytecode: Vec<u8>)
        ensures
            old(self).wf() ==> final(self).wf(),
            final(self).code_of(address@) == Some(bytecode@),
            forall|a: Seq<u8>| a != address@ ==> final(self).code_of(a) == old(self).code_of(a),
            final(self).cache.len() == old(self).cache.len() + if old(self).code_of(address@) is Some {
                0int
            } else {
                1int
            },
    {
        let ghost before = self.cache@;
        let found = self.position(&address);
        match found {
            Some(i) => {
                self.cache.set(i, (address, bytecode));
            },
            None => {
                self.cache.push((address, bytecode));
            },
        }
        proof {
            let after = self.cache@;
            assert forall|a: Seq<u8>| a != address@ implies self.code_of(a) == old(self).code_of(
                a,
            ) by {
                lemma_entry_of_same(before, after, a, 0);
                lemma_entry_of(before, a, 0);
                if entry_of(before, a, 0) is Some {
                    let i = entry_of(before, a, 0)->0;
                    assert(after[i] == before[i]);
                }
            }
            let at = match found {
                Some(i) => i as int,
                None => before.len() as int,
            };
            assert forall|k: int| 0 <= k < at implies (#[trigger] after[k]).0@ != address@ by {
                lemma_entry_of(before, address@, 0);
                assert(after[k] == before[k]);
            }
            lemma_entry_of_first(after, address@, 0, at);
            lemma_entry_of(before, address@, 0);
            if old(self).wf() {
                assert forall|i: int, j: int| 0 <= i < j < after.len() implies (
                #[trigger] after[i]).0@ != (#[trigger] after[j]).0@ by {
                    if found is Some {
                        assert(after[i].0@ == before[i].0@);
                        assert(after[j].0@ == before[j].0@);
                    } else if j < before.len() {
                        assert(after[i] == before[i]);
                        assert(after[j] == before[j]);
                    } else {
                        assert(after[i] == before[i]);
                    }
                }
            }
        }
    }

    /// Keeps the code that was fetched for `address`, unless it is empty:
    /// an address without code is no contract.
    pub fn store_fetched(&mut self, address: Address, bytecode: Vec<u8>)
        ensures
            old(self).wf() ==> final(self).wf(),
            bytecode.len() == 0 ==> final(self).cache == old(self).cache,
            bytecode.len() > 0 ==> final(self).code_of(address@) == Some(bytecode@),
            forall|a: Seq<u8>| a != address@ ==> final(self).code_of(a) == old(self).code_of(a),
    {
        if bytecode.len() > 0 {
            self.insert(address, bytecode);
        }
    }
}

/// Whether `step` is what the struct log `log` and the address `address`
/// make together: a field that the log leaves out is zero or empty.
pub open spec fn merges<A>(log: StructLog, address: Option<A>, step: MergedStep<A>) -> bool {
    &&& step.pc == match log.pc {
        Some(pc) => pc,
        None => 0,
    }
    &&& step.op@ == match log.op {
        Some(op) => op@,
        None => Seq::<char>::empty(),
    }
    &&& step.stack@ == match log.stack {
        Some(stack) => stack@,
        None => Seq::<String>::empty(),
    }
    &&& step.depth == match log.depth {
        Some(depth) => depth,
        None => 0,
    }
    &&& step.gas == log.gas
    &&& step.gas_cost == log.gas_cost
    &&& step.address == address
}

/// Puts the steps of a struct log together with the addresses that the
/// address tracer reports, step by step. A step beyond the tracer's
/// answer has no address.
pub fn merge_trace<A>(logs: Vec<StructLog>, addresses: Vec<Option<A>>) -> (merged: Vec<
    MergedStep<A>,
>)
    ensures
        merged.len() == logs.len(),
        forall|i: int|
            0 <= i < logs.len() ==> merges(
                logs[i],
                if i < addresses.len() {
                    addresses[i]
                } else {
                    None
                },
                #[trigger] merged[i],
            ),
{
    let mut merged: Vec<MergedStep<A>> = Vec::new();
    let mut logs = logs;
    let mut addresses = addresses;
    let ghost all_logs = logs@;
    let ghost all_addresses = addresses@;
    let count = logs.len();
    let known = addresses.len();
    // The steps are taken from the back, so that each is moved, not copied.
    addresses.truncate(count);
    let mut rest: usize = count;
    proof {
        assert(logs@ =~= all_logs.take(rest as int));
        assert(addresses@ =~= all_addresses.take(
            if rest < known {
                rest as int
            } else {
                known as int
            },
        ));
    }
    let mut back: Vec<MergedStep<A>> = Vec::new();
    while rest > 0
        invariant
            rest <= count,
            count == all_logs.len(),
            known == all_addresses.len(),
            logs@ == all_logs.take(rest as int),
            addresses@ == all_addresses.take(
                if rest < known {
                    rest as int
                } else {
                    known as int
                },
            ),
            back.len() == count - rest,
            forall|k: int|
                0 <= k < back.len() ==> merges(
                    all_logs[count - 1 - k],
                    if count - 1 - k < known {
                        all_addresses[count - 1 - k]
                    } else {
                        None
                    },
                    #[trigger] back[k],
                ),
        decreases rest,
    {
        let address: Option<A> = if rest <= known {
            match addresses.pop() {
                Some(a) => a,
                None => None,
            }
        } else {
            None
        };
        let log = match logs.pop() {
            Some(log) => log,
            None => StructLog { pc: None, op: None, stack: None, depth: None, gas: None, gas_cost: None },
        };
        let ghost taken = log;
        let step = MergedStep {
            pc: match log.pc {
                Some(pc) => pc,
                None => 0,
            },
            op: match log.op {
                Some(op) => op,
                None => String::new(),
            },
            stack: match log.stack {
                Some(stack) => stack,
                None => Vec::new(),
            },
            depth: match log.depth {
                Some(depth) => depth,
                None => 0,
            },
            gas: log.gas,
            gas_cost: log.gas_cost,
            address,
        };
        proof {
            assert(taken == all_logs[rest - 1]);
        }
        back.push(step);
        rest = rest - 1;
        proof {
            assert(logs@ =~= all_logs.take(rest as int));
            assert(addresses@ =~= all_addresses.take(
                if rest < known {
                    rest as int
                } else {
                    known as int
                },
            ));
        }
    }
    while back.len() > 0
        invariant
            back.len() + merged.len() == count,
            count == all_logs.len(),
            known == all_addresses.len(),
            forall|k: int|
                0 <= k < back.len() ==> merges(
                    all_logs[count - 1 - k],
                    if count - 1 - k < known {
                        all_addresses[count - 1 - k]
                    } else {
                        None
                    },
                    #[trigger] back[k],
                ),
            forall|i: int|
                0 <= i < merged.len() ==> merges(
                    all_logs[i],
                    if i < known {
                        all_addresses[i]
                    } else {
                        None
                    },
                    #[trigger] merged[i],
                ),
        decreases back.len(),
    {
        match back.pop() {
            Some(step) => {
                merged.push(step);
            },
            None => {},
        }
    }
    merged
}

} // verus!

use crate::address::{lemma_parse_of_hex, parse_address, Address};
use crate::text::{decimal, hex_encode, hex_lower, to_decimal};
use std::collections::HashSet;
use vstd::prelude::*;

verus! {

/// One step of a recorded execution.
#[derive(Clone, Debug)]
pub struct TraceStep {
    pub pc: Option<u16>,
    pub op: Option<String>,
    pub gas: Option<u64>,
    pub gas_cost: Option<u64>,
    pub depth: Option<u64>,
    pub error: Option<String>,
    pub stack: Option<Vec<String>>,
    pub memory: Option<Vec<String>>,
    pub storage: Option<Vec<(String, String)>>,
    /// The executing contract's address as the tracer reports it: one
    /// entry for each byte, keyed by the byte's index in decimal.
    pub address: Option<Vec<(String, u8)>>,
}

/// A recorded execution in the shape of a node's answer.
#[derive(Clone, Debug)]
pub struct TraceTransaction {
    pub gas: u64,
    pub failed: bool,
    pub return_value: String,
    pub struct_logs: Vec<TraceStep>,
}

/// A call from one contract into another that a trace shows.
#[derive(Clone, Debug)]
pub struct CallEdge {
    pub from_addr: Address,
    pub from_pc: u16,
    pub to_addr: Address,
    pub call_type: String,
}

/// A trace step as plain values.
pub struct TraceStepView {
    pub pc: Option<u16>,
    pub op: Option<Seq<char>>,
    pub gas: Option<u64>,
    pub gas_cost: Option<u64>,
    pub depth: Option<u64>,
    pub error: Option<Seq<char>>,
    pub stack: Option<Seq<Seq<char>>>,
    pub memory: Option<Seq<Seq<char>>>,
    pub storage: Option<Seq<(Seq<char>, Seq<char>)>>,
    pub address: Option<Seq<(Seq<char>, u8)>>,
}

/// A call edge as plain values.
pub struct CallEdgeView {
    pub from_addr: Seq<u8>,
    pub from_pc: u16,
    pub to_addr: Seq<u8>,
    pub call_type: Seq<char>,
}

/// The characters of an optional text.
pub open spec fn text_view(s: Option<String>) -> Option<Seq<char>> {
    match s {
        Some(s) => Some(s@),
        None => None,
    }
}

/// The characters of each text of a list.
pub open spec fn texts_view(v: Seq<String>) -> Seq<Seq<char>> {
    v.map_values(|s: String| s@)
}

/// The characters of each pair of texts of a list.
pub open spec fn pairs_view(v: Seq<(String, String)>) -> Seq<(Seq<char>, Seq<char>)> {
    v.map_values(|p: (String, String)| (p.0@, p.1@))
}

/// The entries of a reported address with their keys as characters.
pub open spec fn entries_view(v: Seq<(String, u8)>) -> Seq<(Seq<char>, u8)> {
    v.map_values(|p: (String, u8)| (p.0@, p.1))
}

impl View for TraceStep {
    type V = TraceStepView;

    open spec fn view(&self) -> TraceStepView {
        TraceStepView {
            pc: self.pc,
            op: text_view(self.op),
            gas: self.gas,
            gas_cost: self.gas_cost,
            depth: self.depth,
            error: text_view(self.error),
            stack: match self.stack {
                Some(v) => Some(texts_view(v@)),
                None => None,
            },
            memory: match self.memory {
                Some(v) => Some(texts_view(v@)),
                None => None,
            },
            storage: match self.storage {
                Some(v) => Some(pairs_view(v@)),
                None => None,
            },
            address: match self.address {
                Some(v) => Some(entries_view(v@)),
                None => None,
            },
        }
    }
}

impl View for CallEdge {
    type V = CallEdgeView;

    open spec fn view(&self) -> CallEdgeView {
        CallEdgeView {
            from_addr: self.from_addr@,
            from_pc: self.from_pc,
            to_addr: self.to_addr@,
            call_type: self.call_type@,
        }
    }
}

/// The views of a run of steps.
pub open spec fn steps_view(steps: Seq<TraceStep>) -> Seq<TraceStepView> {
    steps.map_values(|s: TraceStep| s@)
}

/// The views of a run of call edges.
pub open spec fn call_edges_view(edges: Seq<CallEdge>) -> Seq<CallEdgeView> {
    edges.map_values(|e: CallEdge| e@)
}

/// The value of the first entry from index `from` on whose key is `key`.
pub open spec fn lookup(entries: Seq<(Seq<char>, u8)>, key: Seq<char>, from: int) -> Option<u8>
    decreases entries.len() - from,
{
    if from < 0 || from >= entries.len() {
        None
    } else if entries[from].0 == key {
        Some(entries[from].1)
    } else {
        lookup(entries, key, from + 1)
    }
}

/// The bytes that a reported address gives for the indices below `n`:
/// for each index, in order, the value of the entry that is keyed by the
/// index in decimal, where there is one.
pub open spec fn address_bytes(entries: Seq<(Seq<char>, u8)>, n: nat) -> Seq<u8>
    decreases n,
{
    if n == 0 {
        Seq::empty()
    } else {
        let before = address_bytes(entries, (n - 1) as nat);
        match lookup(entries, decimal((n - 1) as nat), 0) {
            Some(b) => before.push(b),
            None => before,
        }
    }
}

/// Whether `op` names one of the four instructions that call a contract.
pub open spec fn is_call_op(op: Seq<char>) -> bool {
    op == "CALL"@ || op == "DELEGATECALL"@ || op == "STATICCALL"@ || op == "CALLCODE"@
}

impl TraceStepView {
    /// All bytes that the reported address gives.
    pub open spec fn reported_bytes(self) -> Option<Seq<u8>> {
        match self.address {
            Some(entries) => Some(address_bytes(entries, entries.len())),
            None => None,
        }
    }

    /// The address of the executing contract: the reported bytes, if they
    /// are 20.
    pub open spec fn executing(self) -> Option<Seq<u8>> {
        match self.reported_bytes() {
            Some(bytes) => if bytes.len() == 20 {
                Some(bytes)
            } else {
                None
            },
            None => None,
        }
    }

    /// Whether the step calls a contract.
    pub open spec fn is_call(self) -> bool {
        self.op is Some && is_call_op(self.op->0)
    }

    /// The address that the step calls, read from the second stack word
    /// from the top.
    pub open spec fn call_target(self) -> Option<Seq<u8>> {
        if self.is_call() && self.stack is Some && self.stack->0.len() > 1 {
            parse_address(self.stack->0[self.stack->0.len() - 2])
        } else {
            None
        }
    }
}

/// The call edge that the steps `i` and `i + 1` show: step `i` calls a
/// contract, both steps report an address, and the two differ.
pub open spec fn call_edge_at(steps: Seq<TraceStepView>, i: int) -> Option<CallEdgeView> {
    let s = steps[i];
    let t = steps[i + 1];
    if s.is_call() && s.executing() is Some && s.pc is Some && t.executing() is Some
        && t.executing() != s.executing() {
        Some(
            CallEdgeView {
                from_addr: s.executing()->0,
                from_pc: s.pc->0,
                to_addr: t.executing()->0,
                call_type: s.op->0,
            },
        )
    } else {
        None
    }
}

/// The call edges that the first `n` pairs of neighbouring steps show, in
/// the order of the trace.
pub open spec fn call_edges(steps: Seq<TraceStepView>, n: nat) -> Seq<CallEdgeView>
    decreases n,
{
    if n == 0 {
        Seq::empty()
    } else {
        let before = call_edges(steps, (n - 1) as nat);
        match call_edge_at(steps, n - 1) {
            Some(e) => before.push(e),
            None => before,
        }
    }
}

/// The steps that the contract at `address` executed, in order.
pub open spec fn steps_of(steps: Seq<TraceStepView>, address: Seq<u8>) -> Seq<TraceStepView> {
    steps.filter(|s: TraceStepView| s.executing() == Some(address))
}

/// The program counters that the steps name.
pub open spec fn executed_pcs(steps: Seq<TraceStepView>) -> Set<u16> {
    Set::new(|pc: u16| exists|i: int| 0 <= i < steps.len() && (#[trigger] steps[i]).pc == Some(pc))
}

fn copy_text(s: &Option<String>) -> (copy: Option<String>)
    ensures
        text_view(copy) == text_view(*s),
{
    match s {
        Some(s) => Some(s.clone()),
        None => None,
    }
}

fn copy_texts(v: &Option<Vec<String>>) -> (copy: Option<Vec<String>>)
    ensures
        copy is Some == v is Some,
        copy is Some ==> texts_view(copy->0@) == texts_view(v->0@),
{
    match v {
        Some(v) => {
            let mut out: Vec<String> = Vec::new();
            let mut i: usize = 0;
            while i < v.len()
                invariant
                    i <= v.len(),
                    out.len() == i,
                    texts_view(out@) == texts_view(v@.take(i as int)),
                decreases v.len() - i,
            {
                let ghost before = out@;
                out.push(v[i].clone());
                proof {
                    let a = texts_view(out@);
                    let b = texts_view(v@.take(i + 1));
                    assert(a.len() == b.len());
                    assert forall|k: int| 0 <= k < a.len() implies a[k] == b[k] by {
                        if k < i {
                            assert(out@[k] == before[k]);
                            assert(texts_view(before)[k] == texts_view(v@.take(i as int))[k]);
                        }
                    }
                    assert(a =~= b);
                }
                i = i + 1;
            }
            assert(v@.take(v.len() as int) =~= v@);
            Some(out)
        },
        None => None,
    }
}

fn copy_pairs(v: &Option<Vec<(String, String)>>) -> (copy: Option<Vec<(String, String)>>)
    ensures
        copy is Some == v is Some,
        copy is Some ==> pairs_view(copy->0@) == pairs_view(v->0@),
{
    match v {
        Some(v) => {
            let mut out: Vec<(String, String)> = Vec::new();
            let mut i: usize = 0;
            while i < v.len()
                invariant
                    i <= v.len(),
                    out.len() == i,
                    pairs_view(out@) == pairs_view(v@.take(i as int)),
                decreases v.len() - i,
            {
                let ghost before = out@;
                out.push((v[i].0.clone(), v[i].1.clone()));
                proof {
                    let a = pairs_view(out@);
                    let b = pairs_view(v@.take(i + 1));
                    assert(a.len() == b.len());
                    assert forall|k: int| 0 <= k < a.len() implies a[k] == b[k] by {
                        if k < i {
                            assert(out@[k] == before[k]);
                            assert(pairs_view(before)[k] == pairs_view(v@.take(i as int))[k]);
                        }
                    }
                    assert(a =~= b);
                }
                i = i + 1;
            }
            assert(v@.take(v.len() as int) =~= v@);
            Some(out)
        },
        None => None,
    }
}

fn copy_entries(v: &Option<Vec<(String, u8)>>) -> (copy: Option<Vec<(String, u8)>>)
    ensures
        copy is Some == v is Some,
        copy is Some ==> entries_view(copy->0@) == entries_view(v->0@),
{
    match v {
        Some(v) => {
            let mut out: Vec<(String, u8)> = Vec::new();
            let mut i: usize = 0;
            while i < v.len()
                invariant
                    i <= v.len(),
                    out.len() == i,
                    entries_view(out@) == entries_view(v@.take(i as int)),
                decreases v.len() - i,
            {
                let ghost before = out@;
                out.push((v[i].0.clone(), v[i].1));
                proof {
                    let a = entries_view(out@);
                    let b = entries_view(v@.take(i + 1));
                    assert(a.len() == b.len());
                    assert forall|k: int| 0 <= k < a.len() implies a[k] == b[k] by {
                        if k < i {
                            assert(out@[k] == before[k]);
                            assert(entries_view(before)[k] == entries_view(v@.take(i as int))[k]);
                        }
                    }
                    assert(a =~= b);
                }
                i = i + 1;
            }
            assert(v@.take(v.len() as int) =~= v@);
            Some(out)
        },
        None => None,
    }
}

/// The value of the first entry whose key is `key`.
fn lookup_entry(entries: &Vec<(String, u8)>, key: &String) -> (found: Option<u8>)
    ensures
        found == lookup(entries_view(entries@), key@, 0),
{
    let ghost view = entries_view(entries@);
    let mut j: usize = 0;
    while j < entries.len()
        invariant
            j <= entries.len(),
            view == entries_view(entries@),
            lookup(view, key@, 0) == lookup(view, key@, j as int),
        decreases entries.len() - j,
    {
        if entries[j].0 == *key {
            return Some(entries[j].1);
        }
        j = j + 1;
    }
    None
}

impl TraceStep {
    /// A copy of the step.
    pub fn duplicate(&self) -> (copy: TraceStep)
        ensures
            copy@ == self@,
    {
        TraceStep {
            pc: self.pc,
            op: copy_text(&self.op),
            gas: self.gas,
            gas_cost: self.gas_cost,
            depth: self.depth,
            error: copy_text(&self.error),
            stack: copy_texts(&self.stack),
            memory: copy_texts(&self.memory),
            storage: copy_pairs(&self.storage),
            address: copy_entries(&self.address),
        }
    }

    /// The bytes of the reported address, in the order of their indices.
    pub fn address_bytes(&self) -> (bytes: Option<Vec<u8>>)
        ensures
            bytes is Some == self@.reported_bytes() is Some,
            bytes is Some ==> bytes->0@ == self@.reported_bytes()->0,
    {
        match &self.address {
            Some(entries) => {
                let ghost view = entries_view(entries@);
                let mut bytes: Vec<u8> = Vec::new();
                let mut i: usize = 0;
                while i < entries.len()
                    invariant
                        i <= entries.len(),
                        view == entries_view(entries@),
                        bytes@ == address_bytes(view, i as nat),
                    decreases entries.len() - i,
                {
                    let key = to_decimal(i as u64);
                    match lookup_entry(entries, &key) {
                        Some(b) => {
                            bytes.push(b);
                        },
                        None => {},
                    }
                    i = i + 1;
                }
                Some(bytes)
            },
            None => None,
        }
    }

    /// The reported address in text: `0x` and two hexadecimal digits for
    /// each byte.
    pub fn address_hex(&self) -> (hex: Option<String>)
        ensures
            hex is Some == self@.reported_bytes() is Some,
            hex is Some ==> hex->0@ == seq!['0', 'x'] + hex_lower(self@.reported_bytes()->0),
    {
        match self.address_bytes() {
            Some(bytes) => {
                proof {
                    reveal_strlit("0x");
                }
                let mut s = String::from_str("0x");
                assert(s@ =~= seq!['0', 'x']);
                let digits = hex_encode(&bytes);
                s.append(digits.as_str());
                Some(s)
            },
            None => None,
        }
    }

    /// The address of the executing contract, if the step reports one of
    /// 20 bytes.
    pub fn get_h160_address(&self) -> (address: Option<Address>)
        ensures
            address is Some == self@.executing() is Some,
            address is Some ==> address->0@ == self@.executing()->0,
    {
        match self.address_hex() {
            Some(hex) => {
                proof {
                    lemma_parse_of_hex(self@.reported_bytes()->0);
                }
                Address::parse(hex.as_str())
            },
            None => None,
        }
    }

    /// Whether the step calls a contract: its instruction is `CALL`,
    /// `DELEGATECALL`, `STATICCALL` or `CALLCODE`.
    pub fn is_contract_call(&self) -> (calls: bool)
        ensures
            calls == self@.is_call(),
    {
        match &self.op {
            Some(op) => {
                *op == String::from_str("CALL") || *op == String::from_str("DELEGATECALL") || *op
                    == String::from_str("STATICCALL") || *op == String::from_str("CALLCODE")
            },
            None => false,
        }
    }

    /// The address that a calling step calls, read from its stack.
    pub fn get_call_target(&self) -> (target: Option<Address>)
        ensures
            target is Some == self@.call_target() is Some,
            target is Some ==> target->0@ == self@.call_target()->0,
    {
        if !self.is_contract_call() {
            return None;
        }
        match &self.stack {
            Some(stack) => {
                if stack.len() > 1 {
                    let word = &stack[stack.len() - 2];
                    Address::parse(word.as_str())
                } else {
                    None
                }
            },
            None => None,
        }
    }

    /// The name of the step's instruction.
    pub fn get_call_type(&self) -> (name: Option<String>)
        ensures
            text_view(name) == self@.op,
    {
        copy_text(&self.op)
    }
}

/// The program counters that the steps name.
pub fn get_executed_pcs(steps: &[TraceStep]) -> (pcs: HashSet<u16>)
    ensures
        pcs@ == executed_pcs(steps_view(steps@)),
{
    broadcast use vstd::std_specs::hash::group_hash_axioms;

    let ghost view = steps_view(steps@);
    let mut pcs: HashSet<u16> = HashSet::new();
    let mut i: usize = 0;
    while i < steps.len()
        invariant
            i <= steps.len(),
            view == steps_view(steps@),
            pcs@ == executed_pcs(view.take(i as int)),
        decreases steps.len() - i,
    {
        let ghost before = pcs@;
        match steps[i].pc {
            Some(pc) => {
                pcs.insert(pc);
            },
            None => {},
        }
        proof {
            let a = view.take(i as int);
            let b = view.take(i + 1);
            assert forall|pc: u16| pcs@.contains(pc) <==> executed_pcs(b).contains(pc) by {
                if before.contains(pc) {
                    let w = choose|w: int| 0 <= w < a.len() && (#[trigger] a[w]).pc == Some(pc);
                    assert(b[w].pc == Some(pc));
                }
                if steps[i as int].pc == Some(pc) {
                    assert(b[i as int].pc == Some(pc));
                }
                if executed_pcs(b).contains(pc) {
                    let w = choose|w: int| 0 <= w < b.len() && (#[trigger] b[w]).pc == Some(pc);
                    if w < i {
                        assert(a[w].pc == Some(pc));
                    }
                }
            }
            assert(pcs@ =~= executed_pcs(b));
        }
        i = i + 1;
    }
    proof {
        assert(view.take(steps.len() as int) =~= view);
    }
    pcs
}

/// The steps that the contract at `address` executed, in order.
pub fn filter_steps_by_address(steps: &[TraceStep], address: &Address) -> (own: Vec<TraceStep>)
    ensures
        steps_view(own@) == steps_of(steps_view(steps@), address@),
{
    let ghost view = steps_view(steps@);
    let ghost pred = |s: TraceStepView| s.executing() == Some(address@);
    let mut own: Vec<TraceStep> = Vec::new();
    let mut i: usize = 0;
    proof {
        reveal(Seq::filter);
        assert(steps_view(own@) =~= view.take(0).filter(pred));
    }
    while i < steps.len()
        invariant
            i <= steps.len(),
            view == steps_view(steps@),
            pred == |s: TraceStepView| s.executing() == Some(address@),
            steps_view(own@) == view.take(i as int).filter(pred),
        decreases steps.len() - i,
    {
        let keep = match steps[i].get_h160_address() {
            Some(a) => a.same(address),
            None => false,
        };
        if keep {
            own.push(steps[i].duplicate());
        }
        proof {
            reveal(Seq::filter);
            let next = view.take(i + 1);
            assert(next.drop_last() =~= view.take(i as int));
            assert(next.last() == steps[i as int]@);
            assert(steps_view(own@) =~= next.filter(pred));
        }
        i = i + 1;
    }
    proof {
        assert(view.take(steps.len() as int) =~= view);
    }
    own
}

/// Whether `a` is one of the addresses.
pub open spec fn lists_address(addresses: Seq<Address>, a: Seq<u8>) -> bool {
    exists|i: int| 0 <= i < addresses.len() && (#[trigger] addresses[i])@ == a
}

/// Whether one of the first `n` steps reports the address `a`.
pub open spec fn reports_address(steps: Seq<TraceStep>, n: int, a: Seq<u8>) -> bool {
    exists|k: int| 0 <= k < n && k < steps.len() && (#[trigger] steps[k])@.executing() == Some(a)
}

/// The bytes of each address of a list.
pub open spec fn addresses_view(addresses: Seq<Address>) -> Seq<Seq<u8>> {
    addresses.map_values(|a: Address| a@)
}

/// The addresses that the first `n` steps report, each once, in the
/// order in which they first appear.
pub open spec fn reported_addresses(steps: Seq<TraceStepView>, n: nat) -> Seq<Seq<u8>>
    decreases n,
{
    if n == 0 {
        Seq::empty()
    } else {
        let before = reported_addresses(steps, (n - 1) as nat);
        match steps[n - 1].executing() {
            Some(a) => if before.contains(a) {
                before
            } else {
                before.push(a)
            },
            None => before,
        }
    }
}

/// The addresses of the contracts that the steps report, each once, in
/// the order in which they first appear.
pub fn extract_contract_addresses(steps: &[TraceStep]) -> (addresses: Vec<Address>)
    ensures
        addresses_view(addresses@) == reported_addresses(
            steps_view(steps@),
            steps.len() as nat,
        ),
        forall|i: int, j: int|
            0 <= i < j < addresses.len() ==> (#[trigger] addresses[i])@ != (
            #[trigger] addresses[j])@,
        forall|a: Seq<u8>| #[trigger]
            lists_address(addresses@, a) <==> reports_address(steps@, steps.len() as int, a),
{
    let mut addresses: Vec<Address> = Vec::new();
    let mut k: usize = 0;
    let ghost view = steps_view(steps@);
    proof {
        assert(addresses_view(addresses@) =~= reported_addresses(view, 0));
    }
    while k < steps.len()
        invariant
            k <= steps.len(),
            view == steps_view(steps@),
            addresses_view(addresses@) == reported_addresses(view, k as nat),
            forall|i: int, j: int|
                0 <= i < j < addresses.len() ==> (#[trigger] addresses[i])@ != (
                #[trigger] addresses[j])@,
            forall|a: Seq<u8>| #[trigger]
                lists_address(addresses@, a) <==> reports_address(steps@, k as int, a),
        decreases steps.len() - k,
    {
        let ghost listed = addresses@;
        match steps[k].get_h160_address() {
            Some(address) => {
                let mut known = false;
                let mut i: usize = 0;
                while i < addresses.len()
                    invariant
                        i <= addresses.len(),
                        known == lists_address(addresses@.take(i as int), address@),
                    decreases addresses.len() - i,
                {
                    let ghost was = known;
                    if addresses[i].same(&address) {
                        known = true;
                    }
                    proof {
                        let a = addresses@.take(i as int);
                        let b = addresses@.take(i + 1);
                        if was {
                            let w = choose|w: int| 0 <= w < a.len() && (#[trigger] a[w])@ == address@;
                            assert(b[w]@ == address@);
                        }
                        if addresses[i as int]@ == address@ {
                            assert(b[i as int]@ == address@);
                        }
                        if lists_address(b, address@) {
                            let w = choose|w: int| 0 <= w < b.len() && (#[trigger] b[w])@ == address@;
                            if w < i {
                                assert(a[w]@ == address@);
                            }
                        }
                    }
                    i = i + 1;
                }
                proof {
                    assert(addresses@.take(addresses.len() as int) =~= addresses@);
                }
                if !known {
                    addresses.push(address);
                }
                proof {
                    let before = addresses_view(listed);
                    assert(view[k as int] == steps[k as int]@);
                    assert(before.contains(address@) == known) by {
                        if before.contains(address@) {
                            let at = choose|at: int| 0 <= at < before.len() && before[at] == address@;
                            assert(listed[at]@ == address@);
                        }
                        if known {
                            let at = choose|at: int|
                                0 <= at < listed.len() && (#[trigger] listed[at])@ == address@;
                            assert(before[at] == address@);
                        }
                    }
                    if !known {
                        assert(addresses_view(addresses@) =~= before.push(address@));
                    }
                    assert forall|a: Seq<u8>| #[trigger]
                        lists_address(addresses@, a) <==> reports_address(steps@, k + 1, a) by {
                        if lists_address(listed, a) {
                            let i = choose|i: int| 0 <= i < listed.len() && (#[trigger] listed[i])@ == a;
                            assert(addresses[i]@ == a);
                            assert(reports_address(steps@, k as int, a));
                            let w = choose|w: int|
                                0 <= w < k && w < steps.len() && (#[trigger] steps[w])@.executing()
                                    == Some(a);
                            assert(steps[w]@.executing() == Some(a));
                        }
                        if a == address@ {
                            assert(steps[k as int]@.executing() == Some(a));
                            if !known {
                                assert(addresses[addresses.len() - 1]@ == a);
                            }
                        }
                        if reports_address(steps@, k + 1, a) {
                            let w = choose|w: int|
                                0 <= w < k + 1 && w < steps.len() && (
                                #[trigger] steps[w])@.executing() == Some(a);
                            if w < k {
                                assert(reports_address(steps@, k as int, a));
                            }
                        }
                        if lists_address(addresses@, a) {
                            let i = choose|i: int|
                                0 <= i < addresses.len() && (#[trigger] addresses[i])@ == a;
                            if i < listed.len() {
                                assert(listed[i]@ == a);
                            }
                        }
                    }
                    assert forall|i: int, j: int| 0 <= i < j < addresses.len() implies (
                    #[trigger] addresses[i])@ != (#[trigger] addresses[j])@ by {
                        if j == listed.len() {
                            assert(listed[i]@ == addresses[i]@);
                        }
                    }
                }
            },
            None => {
                proof {
                    assert(view[k as int] == steps[k as int]@);
                    assert forall|a: Seq<u8>| #[trigger]
                        lists_address(addresses@, a) <==> reports_address(steps@, k + 1, a) by {
                        if reports_address(steps@, k + 1, a) {
                            let w = choose|w: int|
                                0 <= w < k + 1 && w < steps.len() && (
                                #[trigger] steps[w])@.executing() == Some(a);
                            assert(w < k);
                            assert(reports_address(steps@, k as int, a));
                        }
                        if reports_address(steps@, k as int, a) {
                            let w = choose|w: int|
                                0 <= w < k && w < steps.len() && (#[trigger] steps[w])@.executing()
                                    == Some(a);
                            assert(steps[w]@.executing() == Some(a));
                        }
                    }
                }
            },
        }
        k = k + 1;
    }
    addresses
}

/// The calls from one contract into another that the trace shows, in the
/// order of the trace.
pub fn extract_call_edges(steps: &[TraceStep]) -> (edges: Vec<CallEdge>)
    ensures
        steps.len() == 0 ==> edges.len() == 0,
        steps.len() > 0 ==> call_edges_view(edges@) == call_edges(
            steps_view(steps@),
            (steps.len() - 1) as nat,
        ),
{
    let mut edges: Vec<CallEdge> = Vec::new();
    if steps.len() == 0 {
        return edges;
    }
    let ghost view = steps_view(steps@);
    let mut i: usize = 0;
    proof {
        assert(call_edges_view(edges@) =~= call_edges(view, 0));
    }
    while i < steps.len() - 1
        invariant
            steps.len() > 0,
            i <= steps.len() - 1,
            view == steps_view(steps@),
            call_edges_view(edges@) == call_edges(view, i as nat),
        decreases steps.len() - i,
    {
        let current = &steps[i];
        let next = &steps[i + 1];
        if current.is_contract_call() {
            match (current.get_h160_address(), current.pc, current.get_call_type()) {
                (Some(from_addr), Some(from_pc), Some(call_type)) => {
                    match next.get_h160_address() {
                        Some(to_addr) => {
                            if !to_addr.same(&from_addr) {
                                let edge = CallEdge { from_addr, from_pc, to_addr, call_type };
                                let ghost before = edges@;
                                edges.push(edge);
                                proof {
                                    assert(call_edges_view(edges@) =~= call_edges_view(before).push(
                                        edge@,
                                    ));
                                }
                            }
                        },
                        None => {},
                    }
                },
                _ => {},
            }
        }
        i = i + 1;
    }
    edges
}

/// The entries that report the address `a`: one for each byte, keyed by
/// the byte's index in decimal.
pub open spec fn address_entries(a: Seq<u8>) -> Seq<(Seq<char>, u8)> {
    Seq::new(a.len(), |i: int| (decimal(i as nat), a[i]))
}

/// The address that executes the step when `frames` holds the executing
/// contract of every call depth, the outermost first: the contract at the
/// step's depth, where the step has a depth and `frames` reaches it.
pub open spec fn frame_of(frames: Seq<Seq<u8>>, step: TraceStepView) -> Option<Seq<u8>> {
    match step.depth {
        Some(d) => if 1 <= d <= frames.len() {
            Some(frames[d - 1])
        } else {
            None
        },
        None => None,
    }
}

/// The executing contracts by call depth after the step: what lies
/// deeper than the step has returned, and a call whose target the stack
/// names enters that contract one level deeper.
pub open spec fn next_frames(frames: Seq<Seq<u8>>, step: TraceStepView) -> Seq<Seq<u8>> {
    match step.depth {
        Some(d) => if 1 <= d <= frames.len() {
            let kept = frames.take(d as int);
            match step.call_target() {
                Some(target) => kept.push(target),
                None => kept,
            }
        } else {
            frames
        },
        None => frames,
    }
}

/// The executing contracts by call depth after the first `n` steps of a
/// transaction to the contract `root`.
pub open spec fn frames_after(steps: Seq<TraceStepView>, root: Seq<u8>, n: nat) -> Seq<Seq<u8>>
    decreases n,
{
    if n == 0 {
        seq![root]
    } else {
        next_frames(frames_after(steps, root, (n - 1) as nat), steps[n - 1])
    }
}

/// The step with the address `frame` where it reports none itself.
pub open spec fn attributed(step: TraceStepView, frame: Option<Seq<u8>>) -> TraceStepView {
    if step.address is Some {
        step
    } else {
        TraceStepView {
            address: match frame {
                Some(a) => Some(address_entries(a)),
                None => None,
            },
            ..step
        }
    }
}

proof fn lemma_small_decimals_differ(k: nat, m: nat)
    requires
        k < 20,
        m < 20,
        k != m,
    ensures
        decimal(k) != decimal(m),
{
    reveal_with_fuel(decimal, 2);
    if decimal(k) == decimal(m) {
        assert(decimal(k).len() == decimal(m).len());
        assert(decimal(k).last() == decimal(m).last());
        assert(decimal(k)[0] == decimal(m)[0]);
    }
}

proof fn lemma_lookup_own_entry(a: Seq<u8>, k: int, from: int)
    requires
        a.len() == 20,
        0 <= from <= k < 20,
    ensures
        lookup(address_entries(a), decimal(k as nat), from) == Some(a[k]),
    decreases k - from,
{
    if from < k {
        lemma_small_decimals_differ(from as nat, k as nat);
        lemma_lookup_own_entry(a, k, from + 1);
    }
}

proof fn lemma_entries_prefix(a: Seq<u8>, n: nat)
    requires
        a.len() == 20,
        n <= 20,
    ensures
        address_bytes(address_entries(a), n) == a.take(n as int),
    decreases n,
{
    if n > 0 {
        lemma_entries_prefix(a, (n - 1) as nat);
        lemma_lookup_own_entry(a, n - 1, 0);
        assert(a.take(n as int) =~= a.take(n - 1).push(a[n - 1]));
    } else {
        assert(a.take(0) =~= Seq::<u8>::empty());
    }
}

/// A step that is given the address `a` of 20 bytes reports `a`.
pub proof fn lemma_attributed_reports(step: TraceStepView, a: Seq<u8>)
    requires
        step.address is None,
        a.len() == 20,
    ensures
        attributed(step, Some(a)).executing() == Some(a),
{
    lemma_entries_prefix(a, 20);
    assert(a.take(20) =~= a);
    assert(address_entries(a).len() == 20);
}

/// The entries that report `address`.
fn entries_of(address: &Address) -> (entries: Vec<(String, u8)>)
    ensures
        entries_view(entries@) == address_entries(address@),
{
    let mut entries: Vec<(String, u8)> = Vec::new();
    let mut i: usize = 0;
    while i < 20
        invariant
            i <= 20,
            entries.len() == i,
            forall|k: int|
                0 <= k < i ==> (#[trigger] entries[k]).0@ == decimal(k as nat) && entries[k].1
                    == address@[k],
        decreases 20 - i,
    {
        entries.push((to_decimal(i as u64), address.bytes[i]));
        i = i + 1;
    }
    proof {
        assert(entries_view(entries@) =~= address_entries(address@));
    }
    entries
}

/// Gives every step that reports no address the contract that executes
/// it by the depth of calls: the transaction starts in `root`, a call
/// whose target the stack names enters that contract one level deeper,
/// and a step at a lesser depth has returned. Steps that report an
/// address stay as they are.
pub fn attribute_addresses(steps: &[TraceStep], root: &Address) -> (filled: Vec<TraceStep>)
    ensures
        filled.len() == steps.len(),
        forall|i: int|
            0 <= i < steps.len() ==> (#[trigger] filled[i])@ == attributed(
                steps[i]@,
                frame_of(frames_after(steps_view(steps@), root@, i as nat), steps[i]@),
            ),
{
    let ghost view = steps_view(steps@);
    let mut frames: Vec<Address> = Vec::new();
    frames.push(*root);
    let mut filled: Vec<TraceStep> = Vec::new();
    let mut i: usize = 0;
    proof {
        assert(frames@.map_values(|a: Address| a@) =~= frames_after(view, root@, 0));
    }
    while i < steps.len()
        invariant
            i <= steps.len(),
            view == steps_view(steps@),
            filled.len() == i,
            frames@.map_values(|a: Address| a@) == frames_after(view, root@, i as nat),
            forall|k: int|
                0 <= k < i ==> (#[trigger] filled[k])@ == attributed(
                    steps[k]@,
                    frame_of(frames_after(view, root@, k as nat), steps[k]@),
                ),
        decreases steps.len() - i,
    {
        let step = &steps[i];
        let ghost now = frames@.map_values(|a: Address| a@);
        let reached: Option<usize> = match step.depth {
            Some(d) => if 1 <= d && d <= frames.len() as u64 {
                Some(d as usize)
            } else {
                None
            },
            None => None,
        };
        let mut copy = step.duplicate();
        if copy.address.is_none() {
            match reached {
                Some(d) => {
                    copy.address = Some(entries_of(&frames[d - 1]));
                },
                None => {},
            }
        }
        proof {
            assert(view[i as int] == step@);
            assert(copy@ == attributed(step@, frame_of(now, step@)));
        }
        filled.push(copy);
        match reached {
            Some(d) => {
                frames.truncate(d);
                match step.get_call_target() {
                    Some(target) => {
                        frames.push(target);
                    },
                    None => {},
                }
            },
            None => {},
        }
        proof {
            assert(frames@.map_values(|a: Address| a@) =~= next_frames(now, step@));
        }
        i = i + 1;
    }
    filled
}

} // verus!

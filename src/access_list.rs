//! An instruction observer that collects the accounts and storage slots that a
//! transaction touches, as an EIP-2930 access list.

use vstd::prelude::*;
use crate::types::{addr_lt, word_to_address, Address, Word};

verus! {

pub const BALANCE: u8 = 0x31;
pub const EXTCODESIZE: u8 = 0x3b;
pub const EXTCODECOPY: u8 = 0x3c;
pub const EXTCODEHASH: u8 = 0x3f;
pub const SLOAD: u8 = 0x54;
pub const SSTORE: u8 = 0x55;
pub const CALL: u8 = 0xf1;
pub const CALLCODE: u8 = 0xf2;
pub const DELEGATECALL: u8 = 0xf4;
pub const STATICCALL: u8 = 0xfa;
pub const SELFDESTRUCT: u8 = 0xff;

/// One account of an access list with the storage slots declared for it.
#[derive(Debug, PartialEq, Eq)]
pub struct AccessListItem {
    pub address: Address,
    pub storage_keys: Vec<Word>,
}

/// An EIP-2930 access list.
#[derive(Debug, PartialEq, Eq)]
pub struct AccessList(pub Vec<AccessListItem>);

/// Protocol revisions of the execution engine.
#[allow(non_camel_case_types)]
#[derive(Clone, Copy, Debug, PartialEq, Eq, Structural)]
pub enum SpecId {
    FRONTIER,
    FRONTIER_THAWING,
    HOMESTEAD,
    DAO_FORK,
    TANGERINE,
    SPURIOUS_DRAGON,
    BYZANTIUM,
    CONSTANTINOPLE,
    PETERSBURG,
    ISTANBUL,
    MUIR_GLACIER,
    BERLIN,
    LONDON,
    ARROW_GLACIER,
    GRAY_GLACIER,
    MERGE,
    SHANGHAI,
    CANCUN,
    LATEST,
}

/// The revisions at which the set of precompiled contracts changes.
#[allow(non_camel_case_types)]
#[derive(Clone, Copy, Debug, PartialEq, Eq, Structural)]
pub enum PrecompileSpecId {
    HOMESTEAD,
    BYZANTIUM,
    ISTANBUL,
    BERLIN,
    CANCUN,
    LATEST,
}

/// The precompile set that is active at a protocol revision.
pub open spec fn precompile_id_of(s: SpecId) -> PrecompileSpecId {
    match s {
        SpecId::FRONTIER | SpecId::FRONTIER_THAWING | SpecId::HOMESTEAD | SpecId::DAO_FORK
        | SpecId::TANGERINE | SpecId::SPURIOUS_DRAGON => PrecompileSpecId::HOMESTEAD,
        SpecId::BYZANTIUM | SpecId::CONSTANTINOPLE | SpecId::PETERSBURG => PrecompileSpecId::BYZANTIUM,
        SpecId::ISTANBUL | SpecId::MUIR_GLACIER => PrecompileSpecId::ISTANBUL,
        _ => PrecompileSpecId::BERLIN,
    }
}

pub fn to_precompile_id(spec_id: SpecId) -> (r: PrecompileSpecId)
    ensures
        r == precompile_id_of(spec_id),
{
    match spec_id {
        SpecId::FRONTIER | SpecId::FRONTIER_THAWING | SpecId::HOMESTEAD | SpecId::DAO_FORK
        | SpecId::TANGERINE | SpecId::SPURIOUS_DRAGON => PrecompileSpecId::HOMESTEAD,
        SpecId::BYZANTIUM | SpecId::CONSTANTINOPLE | SpecId::PETERSBURG => PrecompileSpecId::BYZANTIUM,
        SpecId::ISTANBUL | SpecId::MUIR_GLACIER => PrecompileSpecId::ISTANBUL,
        SpecId::BERLIN | SpecId::LONDON | SpecId::ARROW_GLACIER | SpecId::GRAY_GLACIER
        | SpecId::MERGE | SpecId::SHANGHAI | SpecId::CANCUN | SpecId::LATEST => PrecompileSpecId::BERLIN,
    }
}

/// Whether some item of `s` is for address `a`.
pub open spec fn has_addr(s: Seq<AccessListItem>, a: Address) -> bool {
    exists|i: int| 0 <= i < s.len() && s[i].address == a
}

/// The set of slots of each address of an access list with distinct addresses.
pub open spec fn model(s: Seq<AccessListItem>) -> Map<Address, Set<Word>> {
    Map::new(
        |a: Address| has_addr(s, a),
        |a: Address| s[choose|i: int| 0 <= i < s.len() && s[i].address == a].storage_keys@.to_set(),
    )
}

/// Items in strictly increasing address order.
pub open spec fn sorted(s: Seq<AccessListItem>) -> bool {
    forall|i: int, j: int| 0 <= i < j < s.len() ==> addr_lt(s[i].address, s[j].address)
}

/// Items in address order, each slot listed once.
pub open spec fn well_formed_list(s: Seq<AccessListItem>) -> bool {
    &&& sorted(s)
    &&& forall|i: int| 0 <= i < s.len() ==> (#[trigger] s[i]).storage_keys@.no_duplicates()
}

/// The slots recorded for `a`, or none when `a` is not recorded.
pub open spec fn slots_or_empty(m: Map<Address, Set<Word>>, a: Address) -> Set<Word> {
    if m.contains_key(a) { m[a] } else { Set::empty() }
}

/// What a seed access list means: each address with the union of the slots of
/// all its items.
pub open spec fn seed_model(s: Seq<AccessListItem>) -> Map<Address, Set<Word>>
    decreases s.len(),
{
    if s.len() == 0 {
        Map::empty()
    } else {
        let m = seed_model(s.drop_last());
        m.insert(s.last().address, slots_or_empty(m, s.last().address) + s.last().storage_keys@.to_set())
    }
}

/// The accumulator after an instruction with opcode `op`, run by `current`, with
/// operand stack `stack` (its top last), given the excluded addresses.
pub open spec fn step_model(
    m: Map<Address, Set<Word>>,
    excluded: Set<Address>,
    op: u8,
    current: Address,
    stack: Seq<Word>,
) -> Map<Address, Set<Word>> {
    let n = stack.len();
    if (op == SLOAD || op == SSTORE) && n >= 1 {
        m.insert(current, slots_or_empty(m, current).insert(stack[n - 1]))
    } else if (op == EXTCODECOPY || op == EXTCODEHASH || op == EXTCODESIZE || op == BALANCE
        || op == SELFDESTRUCT) && n >= 1 && !excluded.contains(word_to_address(stack[n - 1])) {
        let a = word_to_address(stack[n - 1]);
        m.insert(a, slots_or_empty(m, a))
    } else if (op == DELEGATECALL || op == CALL || op == STATICCALL || op == CALLCODE) && n >= 2
        && !excluded.contains(word_to_address(stack[n - 2])) {
        let a = word_to_address(stack[n - 2]);
        m.insert(a, slots_or_empty(m, a))
    } else {
        m
    }
}

proof fn lemma_model_at(s: Seq<AccessListItem>, i: int)
    requires
        sorted(s),
        0 <= i < s.len(),
    ensures
        model(s).contains_key(s[i].address),
        model(s)[s[i].address] == s[i].storage_keys@.to_set(),
{
    let a = s[i].address;
    assert(has_addr(s, a));
    let j = choose|j: int| 0 <= j < s.len() && s[j].address == a;
    if j < i {
        assert(addr_lt(s[j].address, s[i].address));
    } else if j > i {
        assert(addr_lt(s[i].address, s[j].address));
    }
}

proof fn lemma_model_insert(s: Seq<AccessListItem>, k: int, e: AccessListItem)
    requires
        sorted(s),
        sorted(s.insert(k, e)),
        0 <= k <= s.len(),
        !has_addr(s, e.address),
    ensures
        model(s.insert(k, e)) == model(s).insert(e.address, e.storage_keys@.to_set()),
{
    let t = s.insert(k, e);
    let lhs = model(t);
    let rhs = model(s).insert(e.address, e.storage_keys@.to_set());
    assert forall|a: Address| lhs.contains_key(a) <==> rhs.contains_key(a) by {
        if lhs.contains_key(a) {
            let j = choose|j: int| 0 <= j < t.len() && t[j].address == a;
            if j < k {
                assert(s[j] == t[j]);
            } else if j > k {
                assert(s[j - 1] == t[j]);
            }
        }
        if model(s).contains_key(a) {
            let j = choose|j: int| 0 <= j < s.len() && s[j].address == a;
            if j < k {
                assert(t[j] == s[j]);
            } else {
                assert(t[j + 1] == s[j]);
            }
        }
        if a == e.address {
            assert(t[k] == e);
        }
    }
    assert forall|a: Address| lhs.contains_key(a) implies lhs[a] == rhs[a] by {
        let j = choose|j: int| 0 <= j < t.len() && t[j].address == a;
        lemma_model_at(t, j);
        if j < k {
            assert(s[j] == t[j]);
            lemma_model_at(s, j);
        } else if j > k {
            assert(s[j - 1] == t[j]);
            lemma_model_at(s, j - 1);
        }
    }
    assert(lhs =~= rhs);
}

proof fn lemma_model_update(s: Seq<AccessListItem>, k: int, e: AccessListItem)
    requires
        sorted(s),
        0 <= k < s.len(),
        s[k].address == e.address,
    ensures
        sorted(s.update(k, e)),
        model(s.update(k, e)) == model(s).insert(e.address, e.storage_keys@.to_set()),
{
    let t = s.update(k, e);
    let lhs = model(t);
    let rhs = model(s).insert(e.address, e.storage_keys@.to_set());
    assert(sorted(t)) by {
        assert forall|i: int, j: int| 0 <= i < j < t.len() implies addr_lt(t[i].address, t[j].address) by {
            assert(t[i].address == s[i].address);
            assert(t[j].address == s[j].address);
        }
    }
    assert forall|a: Address| lhs.contains_key(a) <==> rhs.contains_key(a) by {
        if lhs.contains_key(a) {
            let j = choose|j: int| 0 <= j < t.len() && t[j].address == a;
            assert(s[j].address == a);
        }
        if model(s).contains_key(a) {
            let j = choose|j: int| 0 <= j < s.len() && s[j].address == a;
            assert(t[j].address == a);
        }
        if a == e.address {
            assert(t[k] == e);
        }
    }
    assert forall|a: Address| lhs.contains_key(a) implies lhs[a] == rhs[a] by {
        let j = choose|j: int| 0 <= j < t.len() && t[j].address == a;
        lemma_model_at(t, j);
        if j != k {
            assert(s[j] == t[j]);
            lemma_model_at(s, j);
            if j < k {
                assert(addr_lt(t[j].address, t[k].address));
            } else {
                assert(addr_lt(t[k].address, t[j].address));
            }
            assert(a != e.address);
        } else {
            assert(t[k] == e);
        }
    }
    assert(lhs =~= rhs);
}

proof fn lemma_push_set(s: Seq<Word>, w: Word)
    ensures
        s.push(w).to_set() == s.to_set().insert(w),
        s.no_duplicates() && !s.contains(w) ==> s.push(w).no_duplicates(),
{
    let t = s.push(w);
    assert forall|x: Word| t.contains(x) <==> (s.contains(x) || x == w) by {
        if t.contains(x) {
            let i = choose|i: int| 0 <= i < t.len() && t[i] == x;
            if i < s.len() {
                assert(s[i] == x);
            }
        }
        if s.contains(x) {
            let i = choose|i: int| 0 <= i < s.len() && s[i] == x;
            assert(t[i] == x);
        }
        if x == w {
            assert(t[s.len() as int] == x);
        }
    }
    assert(t.to_set() =~= s.to_set().insert(w));
    if s.no_duplicates() && !s.contains(w) {
        assert forall|i: int, j: int| 0 <= i < t.len() && 0 <= j < t.len() && i != j implies t[i] != t[j] by {
            if i < s.len() && j == s.len() {
                assert(s[i] == t[i]);
            }
            if j < s.len() && i == s.len() {
                assert(s[j] == t[j]);
            }
        }
    }
}

/// Whether `w` is among `v`.
fn contains_word(v: &Vec<Word>, w: Word) -> (r: bool)
    ensures
        r == v@.contains(w),
{
    let mut i: usize = 0;
    while i < v.len()
        invariant
            i <= v@.len(),
            forall|j: int| 0 <= j < i ==> v@[j] != w,
        decreases v@.len() - i,
    {
        if v[i] == w {
            return true;
        }
        i = i + 1;
    }
    false
}

/// Whether `a` is among `v`.
fn contains_address(v: &Vec<Address>, a: Address) -> (r: bool)
    ensures
        r == v@.contains(a),
{
    let mut i: usize = 0;
    while i < v.len()
        invariant
            i <= v@.len(),
            forall|j: int| 0 <= j < i ==> v@[j] != a,
        decreases v@.len() - i,
    {
        if v[i] == a {
            return true;
        }
        i = i + 1;
    }
    false
}

/// A copy of a list of words.
fn copy_words(v: &Vec<Word>) -> (r: Vec<Word>)
    ensures
        r@ == v@,
{
    let mut r: Vec<Word> = Vec::new();
    let mut i: usize = 0;
    while i < v.len()
        invariant
            i <= v@.len(),
            r@ == v@.subrange(0, i as int),
        decreases v@.len() - i,
    {
        r.push(v[i]);
        proof {
            assert(r@ =~= v@.subrange(0, i + 1));
        }
        i = i + 1;
    }
    proof {
        assert(v@.subrange(0, v@.len() as int) =~= v@);
    }
    r
}

/// An inspector that collects touched accounts and storage slots.
pub struct AccessListTracer {
    excluded: Vec<Address>,
    entries: Vec<AccessListItem>,
}

impl AccessListTracer {
    /// The addresses that are never recorded by an account-touching instruction.
    pub closed spec fn excluded_set(&self) -> Set<Address> {
        self.excluded@.to_set()
    }

    /// Each recorded address with its set of recorded slots.
    pub closed spec fn view(&self) -> Map<Address, Set<Word>> {
        model(self.entries@)
    }

    pub closed spec fn wf(&self) -> bool {
        well_formed_list(self.entries@)
    }

    /// The position of the first entry not below `a`, and whether it is `a`'s.
    fn find(&self, a: Address) -> (r: (usize, bool))
        requires
            self.wf(),
        ensures
            r.0 <= self.entries@.len(),
            forall|j: int| 0 <= j < r.0 ==> addr_lt(self.entries@[j].address, a),
            r.0 < self.entries@.len() ==> !addr_lt(self.entries@[r.0 as int].address, a),
            r.1 == has_addr(self.entries@, a),
            r.1 ==> self.entries@[r.0 as int].address == a,
    {
        let mut i: usize = 0;
        while i < self.entries.len()
            invariant
                self.wf(),
                i <= self.entries@.len(),
                forall|j: int| 0 <= j < i ==> addr_lt(self.entries@[j].address, a),
            decreases self.entries@.len() - i,
        {
            if !self.entries[i].address.lt(&a) {
                let found = self.entries[i].address == a;
                proof {
                    let s = self.entries@;
                    if !found {
                        assert forall|j: int| 0 <= j < s.len() implies s[j].address != a by {
                            if j > i {
                                assert(addr_lt(s[i as int].address, s[j].address));
                            }
                        }
                    }
                }
                return (i, found);
            }
            i = i + 1;
        }
        (i, false)
    }

    /// Records `a` with no further slots.
    fn ensure_entry(&mut self, a: Address)
        requires
            old(self).wf(),
        ensures
            final(self).wf(),
            final(self)@ == old(self)@.insert(a, slots_or_empty(old(self)@, a)),
            final(self).excluded == old(self).excluded,
    {
        let (idx, found) = self.find(a);
        if found {
            proof {
                lemma_model_at(self.entries@, idx as int);
                assert(self@.insert(a, slots_or_empty(self@, a)) =~= self@);
            }
        } else {
            let e = AccessListItem { address: a, storage_keys: Vec::new() };
            let ghost s = self.entries@;
            self.entries.insert(idx, e);
            proof {
                let t = self.entries@;
                assert(t =~= s.insert(idx as int, e));
                assert forall|i: int, j: int| 0 <= i < j < t.len() implies addr_lt(t[i].address, t[j].address) by {
                    if j == idx {
                        assert(t[i] == s[i]);
                    } else if i == idx {
                        assert(t[j] == s[j - 1]);
                        assert(!addr_lt(s[idx as int].address, a));
                        assert(addr_lt(s[idx as int].address, s[j - 1].address) || j - 1 == idx);
                    } else if i < idx {
                        assert(t[i] == s[i]);
                    }
                }
                assert(e.storage_keys@ =~= Seq::<Word>::empty());
                assert(e.storage_keys@.to_set() =~= Set::<Word>::empty());
                lemma_model_insert(s, idx as int, e);
                assert forall|i: int| 0 <= i < t.len() implies (#[trigger] t[i]).storage_keys@.no_duplicates() by {
                    if i < idx {
                        assert(t[i] == s[i]);
                    } else if i > idx {
                        assert(t[i] == s[i - 1]);
                    }
                }
            }
        }
    }

    /// Records slot `w` of `a`.
    fn add_slot(&mut self, a: Address, w: Word)
        requires
            old(self).wf(),
        ensures
            final(self).wf(),
            final(self)@ == old(self)@.insert(a, slots_or_empty(old(self)@, a).insert(w)),
            final(self).excluded == old(self).excluded,
    {
        self.ensure_entry(a);
        let (idx, found) = self.find(a);
        proof {
            assert(self@.contains_key(a));
            assert(has_addr(self.entries@, a));
        }
        let ghost s = self.entries@;
        let mut item = self.entries.remove(idx);
        let ghost keys0 = item.storage_keys@;
        if !contains_word(&item.storage_keys, w) {
            item.storage_keys.push(w);
            proof {
                lemma_push_set(keys0, w);
            }
        } else {
            proof {
                assert(keys0.to_set() =~= keys0.to_set().insert(w));
            }
        }
        proof {
            lemma_model_at(s, idx as int);
            assert(keys0 == s[idx as int].storage_keys@);
            assert(item.storage_keys@.to_set() == s[idx as int].storage_keys@.to_set().insert(w));
        }
        self.entries.insert(idx, item);
        proof {
            let t = self.entries@;
            assert(t =~= s.update(idx as int, item));
            lemma_model_update(s, idx as int, item);
            assert forall|i: int| 0 <= i < t.len() implies (#[trigger] t[i]).storage_keys@.no_duplicates() by {
                if i != idx {
                    assert(t[i] == s[i]);
                }
            }
        }
    }

    /// A tracer that starts from the seed list `access_list` and never records
    /// `from`, `to` or a precompile as a touched account.
    pub fn new(access_list: AccessList, from: Address, to: Address, precompiles: Vec<Address>) -> (r: Self)
        ensures
            r.wf(),
            r@ == seed_model(access_list.0@),
            r.excluded_set() == set![from, to] + precompiles@.to_set(),
    {
        let mut excluded: Vec<Address> = Vec::new();
        excluded.push(from);
        excluded.push(to);
        let mut i: usize = 0;
        while i < precompiles.len()
            invariant
                i <= precompiles@.len(),
                excluded@ == seq![from, to] + precompiles@.subrange(0, i as int),
            decreases precompiles@.len() - i,
        {
            excluded.push(precompiles[i]);
            proof {
                assert(excluded@ =~= seq![from, to] + precompiles@.subrange(0, i + 1));
            }
            i = i + 1;
        }
        let mut tracer = AccessListTracer { excluded, entries: Vec::new() };
        proof {
            assert(precompiles@.subrange(0, i as int) =~= precompiles@);
            assert(tracer.excluded_set() =~= set![from, to] + precompiles@.to_set()) by {
                assert(tracer.excluded@ =~= seq![from, to] + precompiles@);
                assert forall|x: Address| tracer.excluded_set().contains(x) <==> (set![from, to] + precompiles@.to_set()).contains(x) by {
                    if tracer.excluded@.contains(x) {
                        let k = choose|k: int| 0 <= k < tracer.excluded@.len() && tracer.excluded@[k] == x;
                        if k >= 2 {
                            assert(precompiles@[k - 2] == x);
                        }
                    }
                    if precompiles@.contains(x) {
                        let k = choose|k: int| 0 <= k < precompiles@.len() && precompiles@[k] == x;
                        assert(tracer.excluded@[k + 2] == x);
                    }
                    if x == from {
                        assert(tracer.excluded@[0] == x);
                    }
                    if x == to {
                        assert(tracer.excluded@[1] == x);
                    }
                }
            }
            assert(tracer@ =~= Map::<Address, Set<Word>>::empty());
            assert(access_list.0@.subrange(0, 0) =~= Seq::<AccessListItem>::empty());
        }
        let items = &access_list.0;
        let mut i: usize = 0;
        while i < items.len()
            invariant
                i <= items@.len(),
                tracer.wf(),
                tracer@ == seed_model(items@.subrange(0, i as int)),
                tracer.excluded_set() == set![from, to] + precompiles@.to_set(),
            decreases items@.len() - i,
        {
            let a = items[i].address;
            let keys = &items[i].storage_keys;
            let ghost m = tracer@;
            tracer.ensure_entry(a);
            proof {
                assert(keys@.subrange(0, 0).to_set() =~= Set::<Word>::empty());
                assert(slots_or_empty(m, a) + Set::<Word>::empty() =~= slots_or_empty(m, a));
            }
            let mut j: usize = 0;
            while j < keys.len()
                invariant
                    j <= keys@.len(),
                    tracer.wf(),
                    tracer@ == m.insert(a, slots_or_empty(m, a) + keys@.subrange(0, j as int).to_set()),
                    tracer.excluded_set() == set![from, to] + precompiles@.to_set(),
                decreases keys@.len() - j,
            {
                let ghost before = tracer@;
                tracer.add_slot(a, keys[j]);
                proof {
                    assert(keys@.subrange(0, j + 1) =~= keys@.subrange(0, j as int).push(keys@[j as int]));
                    lemma_push_set(keys@.subrange(0, j as int), keys@[j as int]);
                    assert(before.contains_key(a));
                    assert(slots_or_empty(before, a) == slots_or_empty(m, a) + keys@.subrange(0, j as int).to_set());
                    assert((slots_or_empty(m, a) + keys@.subrange(0, j as int).to_set()).insert(keys@[j as int])
                        =~= slots_or_empty(m, a) + keys@.subrange(0, j + 1).to_set());
                    assert(tracer@ =~= m.insert(a, slots_or_empty(m, a) + keys@.subrange(0, j + 1).to_set()));
                }
                j = j + 1;
            }
            proof {
                let sub = items@.subrange(0, i + 1);
                assert(sub.drop_last() =~= items@.subrange(0, i as int));
                assert(keys@.subrange(0, keys@.len() as int) =~= keys@);
            }
            i = i + 1;
        }
        proof {
            assert(items@.subrange(0, items@.len() as int) =~= items@);
        }
        tracer
    }

    /// Observes one instruction: opcode `op`, run by `current`, with operand
    /// stack `stack` (its top last). Never changes the stack; an instruction
    /// whose operand is missing records nothing.
    pub fn step(&mut self, op: u8, current: Address, stack: &Vec<Word>)
        requires
            old(self).wf(),
        ensures
            final(self).wf(),
            final(self).excluded_set() == old(self).excluded_set(),
            final(self)@ == step_model(old(self)@, old(self).excluded_set(), op, current, stack@),
    {
        let n = stack.len();
        if (op == SLOAD || op == SSTORE) && n >= 1 {
            self.add_slot(current, stack[n - 1]);
        } else if (op == EXTCODECOPY || op == EXTCODEHASH || op == EXTCODESIZE || op == BALANCE
            || op == SELFDESTRUCT) && n >= 1 && !contains_address(&self.excluded, Address::from_word(stack[n - 1])) {
            self.ensure_entry(Address::from_word(stack[n - 1]));
        } else if (op == DELEGATECALL || op == CALL || op == STATICCALL || op == CALLCODE) && n >= 2
            && !contains_address(&self.excluded, Address::from_word(stack[n - 2])) {
            self.ensure_entry(Address::from_word(stack[n - 2]));
        }
    }

    /// The collected access list, in increasing address order.
    pub fn access_list(&self) -> (r: AccessList)
        requires
            self.wf(),
        ensures
            well_formed_list(r.0@),
            model(r.0@) == self@,
    {
        let mut out: Vec<AccessListItem> = Vec::new();
        let mut i: usize = 0;
        while i < self.entries.len()
            invariant
                self.wf(),
                i <= self.entries@.len(),
                out@.len() == i,
                forall|j: int| 0 <= j < i ==> (#[trigger] out@[j]).address == self.entries@[j].address
                    && out@[j].storage_keys@ == self.entries@[j].storage_keys@,
            decreases self.entries@.len() - i,
        {
            let item = AccessListItem {
                address: self.entries[i].address,
                storage_keys: copy_words(&self.entries[i].storage_keys),
            };
            out.push(item);
            i = i + 1;
        }
        proof {
            let s = self.entries@;
            let t = out@;
            assert(sorted(t)) by {
                assert forall|a: int, b: int| 0 <= a < b < t.len() implies addr_lt(t[a].address, t[b].address) by {
                    assert(t[a].address == s[a].address);
                    assert(t[b].address == s[b].address);
                }
            }
            assert forall|k: int| 0 <= k < t.len() implies (#[trigger] t[k]).storage_keys@.no_duplicates() by {
                assert(t[k].storage_keys@ == s[k].storage_keys@);
            }
            assert forall|a: Address| model(t).contains_key(a) <==> model(s).contains_key(a) by {
                if model(t).contains_key(a) {
                    let j = choose|j: int| 0 <= j < t.len() && t[j].address == a;
                    assert(s[j].address == a);
                }
                if model(s).contains_key(a) {
                    let j = choose|j: int| 0 <= j < s.len() && s[j].address == a;
                    assert(t[j].address == a);
                }
            }
            assert forall|a: Address| model(t).contains_key(a) implies model(t)[a] == model(s)[a] by {
                let j = choose|j: int| 0 <= j < t.len() && t[j].address == a;
                lemma_model_at(t, j);
                lemma_model_at(s, j);
            }
            assert(model(t) =~= model(s));
        }
        AccessList(out)
    }
}

} // verus!

//! The registry of all gate variants that a circuit uses, and the selector
//! codes that tell its rows apart.

use vstd::prelude::*;
use crate::error::CircuitError;

verus! {

/// The number of state elements that one permutation round works on.
pub const RESCUE_SPONGE_WIDTH: usize = 4;

/// Gate variants that a circuit can be laid out from.
#[derive(Clone, Copy, Debug, PartialEq, Eq, Structural, Hash)]
pub enum GateKind {
    Base4Sum,
    Buffer,
    RescueStepA,
}

impl GateKind {
    /// The highest total degree among the variant's constraints.
    pub open spec fn degree_spec(self) -> nat {
        match self {
            GateKind::Base4Sum => 4,
            GateKind::Buffer => 0,
            GateKind::RescueStepA => 5,
        }
    }

    /// The number of constants per row that the variant reads behind its prefix.
    pub open spec fn num_constants_spec(self) -> nat {
        match self {
            GateKind::Base4Sum => 0,
            GateKind::Buffer => 0,
            GateKind::RescueStepA => RESCUE_SPONGE_WIDTH as nat,
        }
    }

    /// The name of the variant.
    pub open spec fn name_spec(self) -> Seq<char> {
        match self {
            GateKind::Base4Sum => "Base4SumGate"@,
            GateKind::Buffer => "BufferGate"@,
            GateKind::RescueStepA => "RescueStepAGate"@,
        }
    }

    /// The name of the variant.
    pub fn name(&self) -> (r: &'static str)
        ensures
            r@ == self.name_spec(),
    {
        match self {
            GateKind::Base4Sum => "Base4SumGate",
            GateKind::Buffer => "BufferGate",
            GateKind::RescueStepA => "RescueStepAGate",
        }
    }

    /// The highest total degree among the variant's constraints.
    pub fn degree(&self) -> (r: usize)
        ensures
            r == self.degree_spec(),
    {
        match self {
            GateKind::Base4Sum => 4,
            GateKind::Buffer => 0,
            GateKind::RescueStepA => 5,
        }
    }

    /// The number of constants per row that the variant reads behind its prefix.
    pub fn num_constants(&self) -> (r: usize)
        ensures
            r == self.num_constants_spec(),
    {
        match self {
            GateKind::Base4Sum => 0,
            GateKind::Buffer => 0,
            GateKind::RescueStepA => RESCUE_SPONGE_WIDTH,
        }
    }
}

/// The table that a list of code assignments amounts to. Where a variant is
/// named twice, the later code counts.
pub open spec fn code_table(entries: Seq<(GateKind, Vec<bool>)>) -> Map<GateKind, Seq<bool>>
    decreases entries.len(),
{
    if entries.len() == 0 {
        Map::empty()
    } else {
        code_table(entries.drop_last()).insert(entries.last().0, entries.last().1@)
    }
}

/// A variant has a code exactly when some entry names it.
pub proof fn lemma_code_table_dom(entries: Seq<(GateKind, Vec<bool>)>, kind: GateKind)
    ensures
        code_table(entries).contains_key(kind) <==> exists|i: int|
            0 <= i < entries.len() && (#[trigger] entries[i]).0 == kind,
    decreases entries.len(),
{
    if entries.len() > 0 {
        let front = entries.drop_last();
        lemma_code_table_dom(front, kind);
        if code_table(entries).contains_key(kind) {
            if entries.last().0 == kind {
                assert(entries[entries.len() - 1].0 == kind);
            } else {
                let i = choose|i: int| 0 <= i < front.len() && (#[trigger] front[i]).0 == kind;
                assert(entries[i].0 == kind);
            }
        }
        if exists|i: int| 0 <= i < entries.len() && (#[trigger] entries[i]).0 == kind {
            let i = choose|i: int| 0 <= i < entries.len() && (#[trigger] entries[i]).0 == kind;
            if i < front.len() {
                assert(front[i].0 == kind);
            }
        }
    }
}

/// The code of a variant is that of the last entry that names it.
pub proof fn lemma_code_table_last(entries: Seq<(GateKind, Vec<bool>)>, i: int)
    requires
        0 <= i < entries.len(),
        forall|j: int| i < j < entries.len() ==> (#[trigger] entries[j]).0 != entries[i].0,
    ensures
        code_table(entries).contains_key(entries[i].0),
        code_table(entries)[entries[i].0] == entries[i].1@,
    decreases entries.len(),
{
    if i < entries.len() - 1 {
        let front = entries.drop_last();
        assert(entries[entries.len() - 1].0 != entries[i].0);
        assert forall|j: int| i < j < front.len() implies (#[trigger] front[j]).0 != front[i].0 by {
            assert(entries[j].0 != entries[i].0);
        }
        lemma_code_table_last(front, i);
    }
}

/// The selector code of each gate variant in use.
#[derive(Debug)]
pub struct GatePrefixes {
    entries: Vec<(GateKind, Vec<bool>)>,
}

impl View for GatePrefixes {
    type V = Map<GateKind, Seq<bool>>;

    closed spec fn view(&self) -> Map<GateKind, Seq<bool>> {
        code_table(self.entries@)
    }
}

impl GatePrefixes {
    /// The table with no code.
    pub fn new() -> (r: Self)
        ensures
            r@ == Map::<GateKind, Seq<bool>>::empty(),
    {
        GatePrefixes { entries: Vec::new() }
    }

    /// The code of `kind`, if it has one.
    pub fn get(&self, kind: GateKind) -> (r: Option<&Vec<bool>>)
        ensures
            match r {
                Some(code) => self@.contains_key(kind) && code@ == self@[kind],
                None => !self@.contains_key(kind),
            },
    {
        let mut i: usize = self.entries.len();
        while i > 0
            invariant
                i <= self.entries.len(),
                forall|j: int|
                    i <= j < self.entries.len() ==> (#[trigger] self.entries@[j]).0 != kind,
            decreases i,
        {
            i = i - 1;
            if self.entries[i].0 == kind {
                proof {
                    lemma_code_table_last(self.entries@, i as int);
                }
                return Some(&self.entries[i].1);
            }
        }
        proof {
            lemma_code_table_dom(self.entries@, kind);
        }
        None
    }

    /// Gives `kind` the code `code`, in place of any code it had.
    pub fn insert(&mut self, kind: GateKind, code: Vec<bool>)
        ensures
            final(self)@ == old(self)@.insert(kind, code@),
    {
        self.entries.push((kind, code));
        proof {
            assert(self.entries@.drop_last() =~= old(self).entries@);
        }
    }
}

/// No code of the table begins another one.
pub open spec fn prefix_free(table: Map<GateKind, Seq<bool>>) -> bool {
    forall|a: GateKind, b: GateKind|
        table.contains_key(a) && table.contains_key(b) && a != b ==> !(#[trigger] table[a]).is_prefix_of(
            #[trigger] table[b],
        )
}

/// Every variant's code and constants fit into a row of `capacity` constants.
pub open spec fn fits(table: Map<GateKind, Seq<bool>>, capacity: int) -> bool {
    forall|k: GateKind|
        table.contains_key(k) ==> (#[trigger] table[k]).len() + k.num_constants_spec() <= capacity
}

/// The codes as sequences of bits.
pub open spec fn code_views(codes: Seq<Vec<bool>>) -> Seq<Seq<bool>> {
    Seq::new(codes.len(), |i: int| codes[i]@)
}

/// No code of the list begins another one.
pub open spec fn codes_prefix_free(codes: Seq<Seq<bool>>) -> bool {
    forall|i: int, j: int|
        0 <= i < codes.len() && 0 <= j < codes.len() && i != j ==> !(#[trigger] codes[i]).is_prefix_of(
            #[trigger] codes[j],
        )
}

/// A list of variants and a list of codes that a collection can be made of:
/// no variant twice, no code that begins another, every row within capacity.
pub open spec fn valid_layout(gates: Seq<GateKind>, codes: Seq<Seq<bool>>, capacity: int) -> bool {
    &&& gates.len() == codes.len()
    &&& gates.no_duplicates()
    &&& codes_prefix_free(codes)
    &&& forall|i: int|
        0 <= i < gates.len() ==> (#[trigger] codes[i]).len() + gates[i].num_constants_spec()
            <= capacity
}

/// The code that `new` gives to the variant at position `i`: `i` set bits
/// and one cleared bit.
pub open spec fn unary_code(i: nat) -> Seq<bool> {
    Seq::new(i + 1, |k: int| k < i)
}

/// Of two codes that both begin one sequence of bits, the shorter begins the longer.
pub proof fn lemma_common_extension(a: Seq<bool>, b: Seq<bool>, bits: Seq<bool>)
    requires
        a.is_prefix_of(bits),
        b.is_prefix_of(bits),
        a.len() <= b.len(),
    ensures
        a.is_prefix_of(b),
{
    assert(a =~= b.subrange(0, a.len() as int)) by {
        assert forall|k: int| 0 <= k < a.len() implies a[k] == b[k] by {
            assert(a[k] == bits.subrange(0, a.len() as int)[k]);
            assert(b[k] == bits.subrange(0, b.len() as int)[k]);
        }
    }
}

/// The codes that `new` hands out never begin one another.
pub proof fn lemma_unary_codes_prefix_free(i: nat, j: nat)
    requires
        i != j,
    ensures
        !unary_code(i).is_prefix_of(unary_code(j)),
{
    if i < j && unary_code(i).is_prefix_of(unary_code(j)) {
        assert(unary_code(j).subrange(0, (i + 1) as int)[i as int] == unary_code(j)[i as int]);
        assert(unary_code(i)[i as int] == false);
    }
}

/// Whether `a` begins `b`.
pub fn is_prefix(a: &Vec<bool>, b: &Vec<bool>) -> (r: bool)
    ensures
        r == a@.is_prefix_of(b@),
{
    if a.len() > b.len() {
        return false;
    }
    let mut k: usize = 0;
    while k < a.len()
        invariant
            k <= a.len() <= b.len(),
            forall|m: int| 0 <= m < k ==> a@[m] == b@[m],
        decreases a.len() - k,
    {
        if a[k] != b[k] {
            proof {
                assert(b@.subrange(0, a@.len() as int)[k as int] == b@[k as int]);
            }
            return false;
        }
        k = k + 1;
    }
    proof {
        assert(a@ =~= b@.subrange(0, a@.len() as int));
    }
    true
}

/// A copy of a code.
fn copy_code(code: &Vec<bool>) -> (r: Vec<bool>)
    ensures
        r@ == code@,
{
    let mut out: Vec<bool> = Vec::new();
    let mut k: usize = 0;
    while k < code.len()
        invariant
            k <= code.len(),
            out@ == code@.take(k as int),
        decreases code.len() - k,
    {
        out.push(code[k]);
        proof {
            assert(code@.take(k + 1) =~= code@.take(k as int).push(code@[k as int]));
        }
        k = k + 1;
    }
    proof {
        assert(code@.take(k as int) =~= code@);
    }
    out
}

/// The first pair of positions that hold the same variant.
fn find_duplicate(gates: &Vec<GateKind>) -> (r: Option<(usize, usize)>)
    ensures
        r is None <==> gates@.no_duplicates(),
        r matches Some((i, j)) ==> i < j < gates.len() && gates@[i as int] == gates@[j as int],
{
    let mut j: usize = 0;
    while j < gates.len()
        invariant
            j <= gates.len(),
            forall|a: int, b: int| 0 <= a < b < j ==> gates@[a] != gates@[b],
        decreases gates.len() - j,
    {
        let mut i: usize = 0;
        while i < j
            invariant
                i <= j < gates.len(),
                forall|a: int| 0 <= a < i ==> gates@[a] != gates@[j as int],
            decreases j - i,
        {
            if gates[i] == gates[j] {
                return Some((i, j));
            }
            i = i + 1;
        }
        j = j + 1;
    }
    proof {
        assert forall|a: int, b: int| 0 <= a < gates.len() && 0 <= b < gates.len() && a != b implies gates@[a]
            != gates@[b] by {
            if a < b {
                assert(gates@[a] != gates@[b]);
            } else {
                assert(gates@[b] != gates@[a]);
            }
        }
    }
    None
}

/// The first pair of different positions of which the first code begins the second.
fn find_prefix_clash(codes: &Vec<Vec<bool>>) -> (r: Option<(usize, usize)>)
    ensures
        r is None <==> forall|i: int, j: int|
            0 <= i < codes.len() && 0 <= j < codes.len() && i != j ==> !(#[trigger] codes@[i]@).is_prefix_of(
                #[trigger] codes@[j]@,
            ),
        r matches Some((i, j)) ==> i < codes.len() && j < codes.len() && i != j
            && codes@[i as int]@.is_prefix_of(codes@[j as int]@),
{
    let mut i: usize = 0;
    while i < codes.len()
        invariant
            i <= codes.len(),
            forall|a: int, b: int|
                0 <= a < i && 0 <= b < codes.len() && a != b ==> !(#[trigger] codes@[a]@).is_prefix_of(
                    #[trigger] codes@[b]@,
                ),
        decreases codes.len() - i,
    {
        let mut j: usize = 0;
        while j < codes.len()
            invariant
                i < codes.len(),
                j <= codes.len(),
                forall|b: int|
                    0 <= b < j && b != i ==> !codes@[i as int]@.is_prefix_of(
                        #[trigger] codes@[b]@,
                    ),
            decreases codes.len() - j,
        {
            if i != j && is_prefix(&codes[i], &codes[j]) {
                return Some((i, j));
            }
            j = j + 1;
        }
        i = i + 1;
    }
    None
}

/// The first position whose code and constants exceed the capacity.
fn find_overflow(gates: &Vec<GateKind>, codes: &Vec<Vec<bool>>, capacity: usize) -> (r: Option<usize>)
    requires
        gates.len() == codes.len(),
    ensures
        r is None <==> forall|i: int|
            0 <= i < gates.len() ==> (#[trigger] codes@[i]@).len() + gates@[i].num_constants_spec()
                <= capacity,
        r matches Some(i) ==> i < gates.len() && codes@[i as int]@.len() + gates@[i as int].num_constants_spec()
            > capacity,
{
    let mut i: usize = 0;
    while i < gates.len()
        invariant
            i <= gates.len() == codes.len(),
            forall|a: int|
                0 <= a < i ==> (#[trigger] codes@[a]@).len() + gates@[a].num_constants_spec()
                    <= capacity,
        decreases gates.len() - i,
    {
        let len: usize = codes[i].len();
        let constants: usize = gates[i].num_constants();
        if len > capacity || constants > capacity - len {
            return Some(i);
        }
        i = i + 1;
    }
    None
}

/// Gate variants of a circuit, each with its selector code, and the
/// number of constants that a row holds.
#[derive(Debug)]
pub struct GateCollection {
    gates: Vec<GateKind>,
    prefixes: GatePrefixes,
    capacity: usize,
}

impl GateCollection {
    /// The variants, in the order in which they were registered.
    pub closed spec fn gates(&self) -> Seq<GateKind> {
        self.gates@
    }

    /// The code of each variant.
    pub closed spec fn table(&self) -> Map<GateKind, Seq<bool>> {
        self.prefixes@
    }

    /// The number of constants that a row holds.
    pub closed spec fn row_capacity(&self) -> int {
        self.capacity as int
    }

    /// What construction establishes: the variants are distinct, exactly
    /// they have codes, no code begins another, and every row fits.
    pub open spec fn wf(&self) -> bool {
        &&& self.gates().no_duplicates()
        &&& forall|k: GateKind| #[trigger] self.table().contains_key(k) <==> self.gates().contains(k)
        &&& prefix_free(self.table())
        &&& fits(self.table(), self.row_capacity())
    }

    /// The length of the code of `kind`, which is where its constants begin.
    pub open spec fn prefix_len(&self, kind: GateKind) -> nat {
        self.table()[kind].len()
    }

    /// A collection of `gates` with the codes `codes`, position by position.
    pub fn from_prefixes(gates: Vec<GateKind>, codes: Vec<Vec<bool>>, capacity: usize) -> (r: Result<
        GateCollection,
        CircuitError,
    >)
        ensures
            r is Ok <==> valid_layout(gates@, code_views(codes@), capacity as int),
            r matches Err(CircuitError::LengthMismatch) <==> gates.len() != codes.len(),
            r matches Err(CircuitError::DuplicateGate(_)) <==> gates.len() == codes.len()
                && !gates@.no_duplicates(),
            r matches Err(CircuitError::NotPrefixFree(_, _)) <==> gates.len() == codes.len()
                && gates@.no_duplicates() && !codes_prefix_free(code_views(codes@)),
            r matches Ok(c) ==> c.wf() && c.gates() == gates@ && c.row_capacity() == capacity
                && forall|i: int|
                0 <= i < gates.len() ==> c.table()[#[trigger] gates@[i]] == codes@[i]@,
            r matches Err(e) ==> match e {
                CircuitError::LengthMismatch => gates.len() != codes.len(),
                CircuitError::DuplicateGate(k) => gates.len() == codes.len() && exists|
                    i: int,
                    j: int,
                |
                    0 <= i < j < gates.len() && gates@[i] == k && gates@[j] == k,
                CircuitError::NotPrefixFree(a, b) => gates.len() == codes.len()
                    && gates@.no_duplicates() && exists|i: int, j: int|
                    0 <= i < gates.len() && 0 <= j < gates.len() && i != j && gates@[i] == a
                        && gates@[j] == b && codes@[i]@.is_prefix_of(codes@[j]@),
                CircuitError::ConstantsOverflow(k) => gates.len() == codes.len()
                    && gates@.no_duplicates() && exists|i: int|
                    0 <= i < gates.len() && gates@[i] == k && codes@[i]@.len()
                        + k.num_constants_spec() > capacity,
                _ => false,
            },
    {
        let ghost views = code_views(codes@);
        if gates.len() != codes.len() {
            return Err(CircuitError::LengthMismatch);
        }
        if let Some((i, j)) = find_duplicate(&gates) {
            return Err(CircuitError::DuplicateGate(gates[i]));
        }
        if let Some((i, j)) = find_prefix_clash(&codes) {
            proof {
                assert(views[i as int].is_prefix_of(views[j as int]));
            }
            return Err(CircuitError::NotPrefixFree(gates[i], gates[j]));
        }
        if let Some(i) = find_overflow(&gates, &codes, capacity) {
            proof {
                assert(views[i as int].len() + gates@[i as int].num_constants_spec() > capacity);
            }
            return Err(CircuitError::ConstantsOverflow(gates[i]));
        }
        proof {
            assert forall|i: int, j: int|
                0 <= i < views.len() && 0 <= j < views.len() && i != j implies !(#[trigger] views[i]).is_prefix_of(
                #[trigger] views[j],
            ) by {
                assert(!codes@[i]@.is_prefix_of(codes@[j]@));
            }
            assert forall|i: int| 0 <= i < gates.len() implies (#[trigger] views[i]).len()
                + gates@[i].num_constants_spec() <= capacity by {
                assert(codes@[i]@.len() + gates@[i].num_constants_spec() <= capacity);
            }
        }
        let mut prefixes = GatePrefixes::new();
        let mut i: usize = 0;
        while i < gates.len()
            invariant
                i <= gates.len() == codes.len(),
                gates@.no_duplicates(),
                forall|k: GateKind|
                    #[trigger] prefixes@.contains_key(k) <==> gates@.take(i as int).contains(k),
                forall|a: int| 0 <= a < i ==> prefixes@[#[trigger] gates@[a]] == codes@[a]@,
            decreases gates.len() - i,
        {
            let ghost before = prefixes@;
            prefixes.insert(gates[i], copy_code(&codes[i]));
            proof {
                let kind = gates@[i as int];
                assert(gates@.take(i + 1) =~= gates@.take(i as int).push(kind));
                assert forall|k: GateKind| #[trigger]
                    prefixes@.contains_key(k) <==> gates@.take(i + 1).contains(k) by {
                    if k == kind {
                        assert(gates@.take(i + 1)[i as int] == k);
                    } else {
                        assert(before.contains_key(k) <==> gates@.take(i as int).contains(k));
                        let shorter = gates@.take(i as int);
                        let longer = gates@.take(i + 1);
                        if shorter.contains(k) {
                            let a = choose|a: int| 0 <= a < shorter.len() && shorter[a] == k;
                            assert(longer[a] == k);
                        }
                        if longer.contains(k) {
                            let a = choose|a: int| 0 <= a < longer.len() && longer[a] == k;
                            assert(shorter[a] == k);
                        }
                    }
                }
            }
            i = i + 1;
        }
        proof {
            assert(gates@.take(i as int) =~= gates@);
            assert forall|a: GateKind, b: GateKind|
                prefixes@.contains_key(a) && prefixes@.contains_key(b) && a != b implies !(#[trigger] prefixes@[a]).is_prefix_of(
                #[trigger] prefixes@[b],
            ) by {
                let x = choose|x: int| 0 <= x < gates.len() && gates@[x] == a;
                let y = choose|y: int| 0 <= y < gates.len() && gates@[y] == b;
                assert(prefixes@[gates@[x]] == codes@[x]@);
                assert(prefixes@[gates@[y]] == codes@[y]@);
                assert(!codes@[x]@.is_prefix_of(codes@[y]@));
            }
            assert forall|k: GateKind| prefixes@.contains_key(k) implies (#[trigger] prefixes@[k]).len()
                + k.num_constants_spec() <= capacity by {
                let x = choose|x: int| 0 <= x < gates.len() && gates@[x] == k;
                assert(prefixes@[gates@[x]] == codes@[x]@);
                assert(codes@[x]@.len() + gates@[x].num_constants_spec() <= capacity);
            }
        }
        Ok(GateCollection { gates, prefixes, capacity })
    }
}

impl GateCollection {
    /// A collection of `gates` in which the variant at position `i` gets the
    /// code of `i` set bits followed by a cleared one.
    pub fn new(gates: Vec<GateKind>, capacity: usize) -> (r: Result<GateCollection, CircuitError>)
        ensures
            r is Ok <==> gates@.no_duplicates() && forall|i: int|
                0 <= i < gates.len() ==> i + 1 + (#[trigger] gates@[i]).num_constants_spec()
                    <= capacity,
            r matches Err(CircuitError::DuplicateGate(_)) <==> !gates@.no_duplicates(),
            r matches Ok(c) ==> c.wf() && c.gates() == gates@ && c.row_capacity() == capacity
                && forall|i: int|
                0 <= i < gates.len() ==> c.table()[#[trigger] gates@[i]] == unary_code(i as nat),
            r matches Err(e) ==> match e {
                CircuitError::DuplicateGate(k) => exists|i: int, j: int|
                    0 <= i < j < gates.len() && gates@[i] == k && gates@[j] == k,
                CircuitError::ConstantsOverflow(k) => gates@.no_duplicates() && exists|i: int|
                    0 <= i < gates.len() && gates@[i] == k && i + 1 + k.num_constants_spec()
                        > capacity,
                _ => false,
            },
    {
        let mut codes: Vec<Vec<bool>> = Vec::new();
        let mut i: usize = 0;
        while i < gates.len()
            invariant
                i <= gates.len(),
                codes@.len() == i,
                forall|a: int| 0 <= a < i ==> (#[trigger] codes@[a])@ == unary_code(a as nat),
            decreases gates.len() - i,
        {
            let mut code: Vec<bool> = Vec::new();
            let mut k: usize = 0;
            while k < i
                invariant
                    k <= i,
                    code@.len() == k,
                    forall|m: int| 0 <= m < k ==> code@[m] == true,
                decreases i - k,
            {
                code.push(true);
                k = k + 1;
            }
            code.push(false);
            proof {
                assert(code@ =~= unary_code(i as nat));
            }
            codes.push(code);
            i = i + 1;
        }
        proof {
            let views = code_views(codes@);
            assert forall|a: int, b: int|
                0 <= a < views.len() && 0 <= b < views.len() && a != b implies !(#[trigger] views[a]).is_prefix_of(
                #[trigger] views[b],
            ) by {
                assert(codes@[a]@ == unary_code(a as nat));
                assert(codes@[b]@ == unary_code(b as nat));
                lemma_unary_codes_prefix_free(a as nat, b as nat);
            }
            assert forall|a: int| 0 <= a < gates.len() implies (#[trigger] views[a]).len() == a
                + 1 by {
                assert(codes@[a]@ == unary_code(a as nat));
            }
            assert forall|a: int, b: int|
                0 <= a < codes.len() && 0 <= b < codes.len() && a != b implies !codes@[a]@.is_prefix_of(
                codes@[b]@,
            ) by {
                assert(views[a] == codes@[a]@);
                assert(views[b] == codes@[b]@);
            }
            assert forall|a: int| 0 <= a < codes.len() implies (#[trigger] codes@[a])@.len() == a
                + 1 by {
                assert(codes@[a]@ == unary_code(a as nat));
            }
        }
        GateCollection::from_prefixes(gates, codes, capacity)
    }

    /// The code of each variant.
    pub fn prefixes(&self) -> (r: &GatePrefixes)
        ensures
            r@ == self.table(),
    {
        &self.prefixes
    }

    /// Whether `kind` is one of the collection's variants.
    pub fn contains(&self, kind: GateKind) -> (r: bool)
        ensures
            r == self.table().contains_key(kind),
    {
        self.prefixes.get(kind).is_some()
    }

    /// The code of a variant of the collection.
    pub fn prefix(&self, kind: GateKind) -> (r: &Vec<bool>)
        requires
            self.table().contains_key(kind),
        ensures
            r@ == self.table()[kind],
    {
        match self.prefixes.get(kind) {
            Some(code) => code,
            None => unreached(),
        }
    }

    /// The number of constants that a row holds.
    pub fn capacity(&self) -> (r: usize)
        ensures
            r == self.row_capacity(),
    {
        self.capacity
    }

    /// The number of variants.
    pub fn num_gates(&self) -> (r: usize)
        ensures
            r == self.gates().len(),
    {
        self.gates.len()
    }

    /// The variant whose code begins `bits`, the selector bits of a row.
    /// There is at most one, since no code begins another.
    pub fn active_gate(&self, bits: &Vec<bool>) -> (r: Option<GateKind>)
        requires
            self.wf(),
        ensures
            match r {
                Some(kind) => self.table().contains_key(kind) && self.table()[kind].is_prefix_of(
                    bits@,
                ) && forall|other: GateKind|
                    self.table().contains_key(other) && (#[trigger] self.table()[other]).is_prefix_of(
                        bits@,
                    ) ==> other == kind,
                None => forall|other: GateKind|
                    self.table().contains_key(other) ==> !(#[trigger] self.table()[other]).is_prefix_of(
                        bits@,
                    ),
            },
    {
        let mut i: usize = 0;
        while i < self.gates.len()
            invariant
                i <= self.gates.len(),
                self.wf(),
                forall|a: int|
                    0 <= a < i ==> !(#[trigger] self.table()[self.gates@[a]]).is_prefix_of(bits@),
            decreases self.gates.len() - i,
        {
            let kind = self.gates[i];
            assert(self.gates().contains(kind));
            assert(self.table().contains_key(kind));
            let code = self.prefix(kind);
            if is_prefix(code, bits) {
                proof {
                    assert forall|other: GateKind|
                        self.table().contains_key(other) && (#[trigger] self.table()[other]).is_prefix_of(
                        bits@,
                    ) implies other == kind by {
                        if other != kind {
                            let a = self.table()[other];
                            let b = self.table()[kind];
                            if a.len() <= b.len() {
                                lemma_common_extension(a, b, bits@);
                            } else {
                                lemma_common_extension(b, a, bits@);
                            }
                        }
                    }
                }
                return Some(kind);
            }
            i = i + 1;
        }
        proof {
            assert forall|other: GateKind| self.table().contains_key(other) implies !(#[trigger] self.table()[other]).is_prefix_of(
                bits@,
            ) by {
                assert(self.gates().contains(other));
                let a = choose|a: int| 0 <= a < self.gates().len() && self.gates()[a] == other;
                assert(!self.table()[self.gates@[a]].is_prefix_of(bits@));
            }
        }
        None
    }
}

} // verus!

//! The op vocabulary every device implements, and the ordering of
//! registered devices for reports.
use crate::error::{device_kind_spec, device_ordinal, Device, Error};
use vstd::prelude::*;

verus! {

/// Elementwise unary operations. Float tensors only.
#[derive(Debug, Clone, Copy, PartialEq, Eq, Hash, Structural)]
#[non_exhaustive]
pub enum UnaryOp {
    /// `-x`
    Neg,
    /// `e^x`
    Exp,
    /// `ln(x)`
    Ln,
    /// `|x|`
    Abs,
    /// `√x`
    Sqrt,
    /// `sin(x)`
    Sin,
    /// `cos(x)`
    Cos,
    /// `tanh(x)`
    Tanh,
    /// `max(x, 0)`
    Relu,
    /// GELU with the tanh approximation.
    Gelu,
    /// `1 / (1 + e^-x)`
    Sigmoid,
}

/// The stable lowercase name of a unary op.
pub open spec fn unary_name(op: UnaryOp) -> Seq<char> {
    match op {
        UnaryOp::Neg => "neg"@,
        UnaryOp::Exp => "exp"@,
        UnaryOp::Ln => "ln"@,
        UnaryOp::Abs => "abs"@,
        UnaryOp::Sqrt => "sqrt"@,
        UnaryOp::Sin => "sin"@,
        UnaryOp::Cos => "cos"@,
        UnaryOp::Tanh => "tanh"@,
        UnaryOp::Relu => "relu"@,
        UnaryOp::Gelu => "gelu"@,
        UnaryOp::Sigmoid => "sigmoid"@,
    }
}

/// Every unary op, in declaration order.
pub open spec fn all_unary() -> Seq<UnaryOp> {
    seq![
        UnaryOp::Neg,
        UnaryOp::Exp,
        UnaryOp::Ln,
        UnaryOp::Abs,
        UnaryOp::Sqrt,
        UnaryOp::Sin,
        UnaryOp::Cos,
        UnaryOp::Tanh,
        UnaryOp::Relu,
        UnaryOp::Gelu,
        UnaryOp::Sigmoid,
    ]
}

impl UnaryOp {
    /// Stable lowercase name, used for kernel lookup and error messages.
    pub fn name(self) -> (r: &'static str)
        ensures
            r@ == unary_name(self),
    {
        match self {
            UnaryOp::Neg => "neg",
            UnaryOp::Exp => "exp",
            UnaryOp::Ln => "ln",
            UnaryOp::Abs => "abs",
            UnaryOp::Sqrt => "sqrt",
            UnaryOp::Sin => "sin",
            UnaryOp::Cos => "cos",
            UnaryOp::Tanh => "tanh",
            UnaryOp::Relu => "relu",
            UnaryOp::Gelu => "gelu",
            UnaryOp::Sigmoid => "sigmoid",
        }
    }

    /// Every unary op, for exhaustive backend tests.
    pub fn all() -> (r: Vec<UnaryOp>)
        ensures
            r@ == all_unary(),
    {
        let r = vec![
            UnaryOp::Neg,
            UnaryOp::Exp,
            UnaryOp::Ln,
            UnaryOp::Abs,
            UnaryOp::Sqrt,
            UnaryOp::Sin,
            UnaryOp::Cos,
            UnaryOp::Tanh,
            UnaryOp::Relu,
            UnaryOp::Gelu,
            UnaryOp::Sigmoid,
        ];
        assert(r@ =~= all_unary());
        r
    }
}

/// Elementwise binary operations with NumPy broadcasting. Float only.
#[derive(Debug, Clone, Copy, PartialEq, Eq, Hash, Structural)]
#[non_exhaustive]
pub enum BinaryOp {
    /// `a + b`
    Add,
    /// `a - b`
    Sub,
    /// `a * b`
    Mul,
    /// `a / b`
    Div,
    /// `a ^ b`
    Pow,
    /// `max(a, b)`
    Maximum,
    /// `min(a, b)`
    Minimum,
    /// `a > b` as a 0/1 mask. Not differentiable.
    Gt,
    /// `a == b` as a 0/1 mask. Not differentiable.
    Eq,
}

/// The stable lowercase name of a binary op.
pub open spec fn binary_name(op: BinaryOp) -> Seq<char> {
    match op {
        BinaryOp::Add => "add"@,
        BinaryOp::Sub => "sub"@,
        BinaryOp::Mul => "mul"@,
        BinaryOp::Div => "div"@,
        BinaryOp::Pow => "pow"@,
        BinaryOp::Maximum => "maximum"@,
        BinaryOp::Minimum => "minimum"@,
        BinaryOp::Gt => "gt"@,
        BinaryOp::Eq => "eq"@,
    }
}

/// Every binary op, in declaration order.
pub open spec fn all_binary() -> Seq<BinaryOp> {
    seq![
        BinaryOp::Add,
        BinaryOp::Sub,
        BinaryOp::Mul,
        BinaryOp::Div,
        BinaryOp::Pow,
        BinaryOp::Maximum,
        BinaryOp::Minimum,
        BinaryOp::Gt,
        BinaryOp::Eq,
    ]
}

impl BinaryOp {
    /// Stable lowercase name, used for kernel lookup and error messages.
    pub fn name(self) -> (r: &'static str)
        ensures
            r@ == binary_name(self),
    {
        match self {
            BinaryOp::Add => "add",
            BinaryOp::Sub => "sub",
            BinaryOp::Mul => "mul",
            BinaryOp::Div => "div",
            BinaryOp::Pow => "pow",
            BinaryOp::Maximum => "maximum",
            BinaryOp::Minimum => "minimum",
            BinaryOp::Gt => "gt",
            BinaryOp::Eq => "eq",
        }
    }

    /// Every binary op, for exhaustive backend tests.
    pub fn all() -> (r: Vec<BinaryOp>)
        ensures
            r@ == all_binary(),
    {
        let r = vec![
            BinaryOp::Add,
            BinaryOp::Sub,
            BinaryOp::Mul,
            BinaryOp::Div,
            BinaryOp::Pow,
            BinaryOp::Maximum,
            BinaryOp::Minimum,
            BinaryOp::Gt,
            BinaryOp::Eq,
        ];
        assert(r@ =~= all_binary());
        r
    }

    /// Whether the op has a gradient (the comparison masks do not).
    pub fn is_differentiable(self) -> (r: bool)
        ensures
            r == !(self is Gt || self is Eq),
    {
        match self {
            BinaryOp::Gt | BinaryOp::Eq => false,
            _ => true,
        }
    }
}

/// Reductions along axes. Float only.
#[derive(Debug, Clone, Copy, PartialEq, Eq, Hash, Structural)]
#[non_exhaustive]
pub enum ReduceOp {
    /// Sum of the reduced elements.
    Sum,
    /// Maximum of the reduced elements.
    Max,
    /// Minimum of the reduced elements.
    Min,
}

/// The stable lowercase name of a reduction.
pub open spec fn reduce_name(op: ReduceOp) -> Seq<char> {
    match op {
        ReduceOp::Sum => "sum"@,
        ReduceOp::Max => "max"@,
        ReduceOp::Min => "min"@,
    }
}

impl ReduceOp {
    /// Stable lowercase name, used for kernel lookup and error messages.
    pub fn name(self) -> (r: &'static str)
        ensures
            r@ == reduce_name(self),
    {
        match self {
            ReduceOp::Sum => "sum",
            ReduceOp::Max => "max",
            ReduceOp::Min => "min",
        }
    }
}

/// The report key of a device: kinds in alphabetical order of their
/// names (`cpu` < `cuda` < `metal`), then ordinals.
pub open spec fn device_key(d: Device) -> int {
    kind_rank(d) * 0x1_0000_0000_0000_0000 + device_ordinal(d)
}

/// The position of a device kind when kind names are ordered
/// alphabetically.
pub open spec fn kind_rank(d: Device) -> int {
    match d {
        Device::Cpu => 0,
        Device::Cuda { .. } => 1,
        Device::Metal { .. } => 2,
    }
}

/// `a` comes strictly before `b` in dictionary order of characters.
pub open spec fn text_lt(a: Seq<char>, b: Seq<char>) -> bool
    decreases a.len(),
{
    if b.len() == 0 {
        false
    } else if a.len() == 0 {
        true
    } else if a[0] != b[0] {
        (a[0] as u32) < (b[0] as u32)
    } else {
        text_lt(a.drop_first(), b.drop_first())
    }
}

/// Device `a` may be reported before device `b`: its kind name comes
/// first in dictionary order, or the names are the same and its ordinal
/// is not larger.
pub open spec fn reported_before(a: Device, b: Device) -> bool {
    ||| text_lt(device_kind_spec(a), device_kind_spec(b))
    ||| device_kind_spec(a) == device_kind_spec(b) && device_ordinal(a) <= device_ordinal(b)
}

/// The report key orders devices by kind name in dictionary order, then
/// by ascending ordinal.
pub proof fn law_device_order(a: Device, b: Device)
    ensures
        (device_key(a) <= device_key(b)) == reported_before(a, b),
{
    reveal_strlit("cpu");
    reveal_strlit("cuda");
    reveal_strlit("metal");
    let cpu = "cpu"@;
    let cuda = "cuda"@;
    let metal = "metal"@;
    assert(cpu[0] == 'c' && cpu[1] == 'p');
    assert(cuda[0] == 'c' && cuda[1] == 'u');
    assert(metal[0] == 'm');
    assert(cpu != cuda && cpu != metal && cuda != metal);
    assert(text_lt(cpu, cuda)) by {
        reveal_with_fuel(text_lt, 2);
        assert(cpu.drop_first()[0] == 'p' && cuda.drop_first()[0] == 'u');
    }
    assert(!text_lt(cuda, cpu)) by {
        reveal_with_fuel(text_lt, 2);
        assert(cpu.drop_first()[0] == 'p' && cuda.drop_first()[0] == 'u');
    }
    assert(text_lt(cpu, metal));
    assert(!text_lt(metal, cpu));
    assert(text_lt(cuda, metal));
    assert(!text_lt(metal, cuda));
    assert(0 <= device_ordinal(a) < 0x1_0000_0000_0000_0000);
    assert(0 <= device_ordinal(b) < 0x1_0000_0000_0000_0000);
    assert(!text_lt(cpu, cpu) && !text_lt(cuda, cuda) && !text_lt(metal, metal)) by {
        reveal_with_fuel(text_lt, 6);
        assert(cpu.drop_first().drop_first().drop_first().len() == 0);
        assert(cuda.drop_first().drop_first().drop_first().drop_first().len() == 0);
        assert(metal.drop_first().drop_first().drop_first().drop_first().drop_first().len() == 0);
    }
    assert(device_kind_spec(a) == device_kind_spec(b) <==> kind_rank(a) == kind_rank(b));
    assert(text_lt(device_kind_spec(a), device_kind_spec(b)) <==> kind_rank(a) < kind_rank(b));
}

/// Sort devices for stable reporting: by kind name, then by ordinal.
pub fn sort_devices(devices: &mut Vec<Device>)
    ensures
        final(devices)@.to_multiset() == old(devices)@.to_multiset(),
        forall|i: int, j: int|
            0 <= i < j < final(devices)@.len() ==> device_key(#[trigger] final(devices)@[i])
                <= device_key(#[trigger] final(devices)@[j]),
        forall|i: int, j: int|
            0 <= i < j < final(devices)@.len() ==> reported_before(
                #[trigger] final(devices)@[i],
                #[trigger] final(devices)@[j],
            ),
{
    let n = devices.len();
    if n == 0 {
        return;
    }
    let mut i: usize = 1;
    while i < n
        invariant
            1 <= i <= n,
            devices@.len() == n,
            devices@.to_multiset() == old(devices)@.to_multiset(),
            forall|a: int, b: int|
                0 <= a < b < i ==> device_key(#[trigger] devices@[a]) <= device_key(
                    #[trigger] devices@[b],
                ),
        decreases n - i,
    {
        let mut j = i;
        while j > 0 && !device_precedes(devices[j - 1], devices[j])
            invariant
                0 <= j <= i < n,
                devices@.len() == n,
                devices@.to_multiset() == old(devices)@.to_multiset(),
                forall|a: int, b: int|
                    0 <= a < b <= i && b != j && a != j ==> device_key(#[trigger] devices@[a])
                        <= device_key(#[trigger] devices@[b]),
                forall|a: int, b: int|
                    0 <= a < j < b <= i ==> device_key(#[trigger] devices@[a]) <= device_key(
                        #[trigger] devices@[b],
                    ),
                j < i ==> device_key(devices@[j as int]) <= device_key(devices@[j + 1]),
            decreases j,
        {
            let ghost before = devices@;
            let x = devices[j - 1];
            let y = devices[j];
            devices.set(j - 1, y);
            devices.set(j, x);
            proof {
                lemma_swap_multiset(before, j as int - 1, j as int);
                assert(devices@ == before.update(j - 1, before[j as int]).update(
                    j as int,
                    before[j - 1],
                ));
            }
            j -= 1;
        }
        proof {
            assert(j == 0 || device_key(devices@[j - 1]) <= device_key(devices@[j as int]));
            assert forall|a: int, b: int| 0 <= a < b <= i implies device_key(#[trigger] devices@[a])
                <= device_key(#[trigger] devices@[b]) by {
                if a == j as int {
                    if b > j + 1 {
                        assert(device_key(devices@[j + 1]) <= device_key(devices@[b]));
                    }
                } else if b == j as int {
                    if a < j - 1 {
                        assert(device_key(devices@[a]) <= device_key(devices@[j - 1]));
                    }
                }
            }
        }
        i += 1;
    }
    proof {
        assert forall|a: int, b: int| 0 <= a < b < devices@.len() implies reported_before(
            #[trigger] devices@[a],
            #[trigger] devices@[b],
        ) by {
            law_device_order(devices@[a], devices@[b]);
        }
    }
}

/// Whether `a` may stay before `b` in report order.
pub fn device_precedes(a: Device, b: Device) -> (r: bool)
    ensures
        r == (device_key(a) <= device_key(b)),
        r == reported_before(a, b),
{
    proof {
        law_device_order(a, b);
    }
    let ra = kind_order(a);
    let rb = kind_order(b);
    if ra == rb {
        a.index() <= b.index()
    } else {
        ra < rb
    }
}

/// The alphabetical position of a device's kind name.
fn kind_order(d: Device) -> (r: u8)
    ensures
        r as int == kind_rank(d),
{
    match d {
        Device::Cpu => 0,
        Device::Cuda { .. } => 1,
        Device::Metal { .. } => 2,
    }
}

/// Swapping two positions keeps the multiset of elements.
pub proof fn lemma_swap_multiset<A>(s: Seq<A>, i: int, j: int)
    requires
        0 <= i < j < s.len(),
    ensures
        s.update(i, s[j]).update(j, s[i]).to_multiset() == s.to_multiset(),
{
    broadcast use vstd::multiset::group_multiset_axioms;

    let t = s.update(i, s[j]);
    vstd::seq_lib::to_multiset_update(s, i, s[j]);
    vstd::seq_lib::to_multiset_update(t, j, s[i]);
    vstd::seq_lib::to_multiset_contains(s, s[i]);
    vstd::seq_lib::to_multiset_contains(s, s[j]);
    assert(s.contains(s[i]));
    assert(s.contains(s[j]));
    assert(t[j] == s[j]);
    let m = s.to_multiset();
    assert(m.insert(s[j]).remove(s[i]).insert(s[i]).remove(s[j]) =~= m);
}


/// The backends serving each device: registering a device again
/// replaces its backend. The entries are a list of device and backend
/// pairs, each device at most once, searched by device equality: a
/// handful of devices at most, and a lookup whose result is stated
/// exactly.
pub struct Registry<B> {
    entries: Vec<(Device, B)>,
}

impl<B> Registry<B> {
    /// Each device appears once.
    #[verifier::type_invariant]
    spec fn inv(&self) -> bool {
        forall|i: int, j: int|
            0 <= i < j < self.entries@.len() ==> (#[trigger] self.entries@[i]).0 != (
            #[trigger] self.entries@[j]).0
    }

    /// The registered backend of each device.
    pub closed spec fn view(&self) -> Map<Device, B> {
        Map::new(
            |d: Device| exists|i: int| 0 <= i < self.entries@.len() && (#[trigger] self.entries@[i]).0 == d,
            |d: Device|
                self.entries@[choose|i: int|
                    0 <= i < self.entries@.len() && (#[trigger] self.entries@[i]).0 == d].1,
        )
    }

    /// No backend is registered.
    pub fn new() -> (r: Registry<B>)
        ensures
            r@ == Map::<Device, B>::empty(),
    {
        let r = Registry { entries: Vec::new() };
        assert(r@ =~= Map::<Device, B>::empty());
        r
    }

    /// The entry of `device`, if any.
    fn position(&self, device: Device) -> (r: Option<usize>)
        ensures
            r is None <==> !self@.dom().contains(device),
            r matches Some(i) ==> i < self.entries@.len() && self.entries@[i as int].0 == device
                && self@[device] == self.entries@[i as int].1,
    {
        proof {
            use_type_invariant(self);
        }
        let mut i: usize = 0;
        while i < self.entries.len()
            invariant
                i <= self.entries@.len(),
                forall|k: int| 0 <= k < i ==> (#[trigger] self.entries@[k]).0 != device,
            decreases self.entries.len() - i,
        {
            if self.entries[i].0 == device {
                proof {
                    use_type_invariant(self);
                    assert(self.entries@[i as int].0 == device);
                    assert(self@.dom().contains(device));
                    let c = choose|k: int|
                        0 <= k < self.entries@.len() && (#[trigger] self.entries@[k]).0 == device;
                    if c != i {
                        assert(self.entries@[c].0 != self.entries@[i as int].0);
                    }
                }
                return Some(i);
            }
            i += 1;
        }
        None
    }

    /// Register `backend` for `device`, replacing any previous one.
    pub fn register(&mut self, device: Device, backend: B)
        ensures
            final(self)@ == old(self)@.insert(device, backend),
    {
        proof {
            use_type_invariant(&*self);
        }
        let ghost before = self@;
        match self.position(device) {
            Some(i) => {
                let ghost old_entries = self.entries@;
                let mut entries = Vec::new();
                std::mem::swap(&mut entries, &mut self.entries);
                entries.set(i, (device, backend));
                let ghost new_entries = entries@;
                proof {
                    assert forall|a: int, b: int|
                        0 <= a < b < new_entries.len() implies (#[trigger] new_entries[a]).0 != (
                        #[trigger] new_entries[b]).0 by {
                        assert(old_entries[a].0 != old_entries[b].0);
                    }
                }
                self.entries = entries;
                proof {
                    assert forall|d: Device| #[trigger] self@.dom().contains(d) <==> before.insert(
                        device,
                        backend,
                    ).dom().contains(d) by {
                        if before.dom().contains(d) {
                            let k = choose|k: int| 0 <= k < old_entries.len() && (#[trigger] old_entries[k]).0 == d;
                            assert(new_entries[k].0 == d);
                        }
                        if d == device {
                            assert(new_entries[i as int].0 == d);
                        }
                        if self@.dom().contains(d) {
                            let k = choose|k: int| 0 <= k < new_entries.len() && (#[trigger] new_entries[k]).0 == d;
                            if k != i {
                                assert(old_entries[k].0 == d);
                            }
                        }
                    }
                    assert forall|d: Device| #[trigger] self@.dom().contains(d) implies self@[d] == before.insert(
                        device,
                        backend,
                    )[d] by {
                        let k = choose|k: int| 0 <= k < new_entries.len() && (#[trigger] new_entries[k]).0 == d;
                        if d == device {
                            if k != i {
                                assert(new_entries[i as int].0 == d);
                            }
                        } else {
                            assert(k != i);
                            assert(old_entries[k] == new_entries[k]);
                            let k2 = choose|k2: int| 0 <= k2 < old_entries.len() && (#[trigger] old_entries[k2]).0 == d;
                            if k2 != k {
                                assert(old_entries[k2].0 != old_entries[k].0);
                            }
                        }
                    }
                    assert(self@ =~= before.insert(device, backend));
                }
            },
            None => {
                let ghost old_entries = self.entries@;
                let mut entries = Vec::new();
                std::mem::swap(&mut entries, &mut self.entries);
                entries.push((device, backend));
                let ghost new_entries = entries@;
                proof {
                    assert forall|a: int, b: int|
                        0 <= a < b < new_entries.len() implies (#[trigger] new_entries[a]).0 != (
                        #[trigger] new_entries[b]).0 by {
                        if b == old_entries.len() {
                            assert(old_entries[a].0 != device) by {
                                if old_entries[a].0 == device {
                                    assert(before.dom().contains(device));
                                }
                            }
                        } else {
                            assert(old_entries[a].0 != old_entries[b].0);
                        }
                    }
                }
                self.entries = entries;
                proof {
                    assert forall|d: Device| #[trigger] self@.dom().contains(d) <==> before.insert(
                        device,
                        backend,
                    ).dom().contains(d) by {
                        if before.dom().contains(d) {
                            let k = choose|k: int| 0 <= k < old_entries.len() && (#[trigger] old_entries[k]).0 == d;
                            assert(new_entries[k].0 == d);
                        }
                        if d == device {
                            assert(new_entries[old_entries.len() as int].0 == d);
                        }
                        if self@.dom().contains(d) {
                            let k = choose|k: int| 0 <= k < new_entries.len() && (#[trigger] new_entries[k]).0 == d;
                            if k < old_entries.len() {
                                assert(old_entries[k].0 == d);
                            }
                        }
                    }
                    assert forall|d: Device| #[trigger] self@.dom().contains(d) implies self@[d] == before.insert(
                        device,
                        backend,
                    )[d] by {
                        let k = choose|k: int| 0 <= k < new_entries.len() && (#[trigger] new_entries[k]).0 == d;
                        if d == device {
                            assert(new_entries[old_entries.len() as int].0 == d);
                            if k != old_entries.len() {
                                assert(new_entries[k].0 != new_entries[old_entries.len() as int].0);
                            }
                        } else {
                            assert(k < old_entries.len());
                            assert(old_entries[k] == new_entries[k]);
                            let k2 = choose|k2: int| 0 <= k2 < old_entries.len() && (#[trigger] old_entries[k2]).0 == d;
                            if k2 != k {
                                assert(old_entries[k2].0 != old_entries[k].0);
                            }
                        }
                    }
                    assert(self@ =~= before.insert(device, backend));
                }
            },
        }
    }

    /// The backend registered for `device`, if any.
    pub fn lookup(&self, device: Device) -> (r: Option<&B>)
        ensures
            r is Some <==> self@.dom().contains(device),
            r matches Some(b) ==> *b == self@[device],
    {
        match self.position(device) {
            Some(i) => Some(&self.entries[i].1),
            None => None,
        }
    }

    /// Every registered device, sorted for stable reporting: by kind
    /// name, then by ordinal.
    pub fn devices(&self) -> (r: Vec<Device>)
        ensures
            forall|d: Device| #[trigger] r@.contains(d) <==> self@.dom().contains(d),
            r@.no_duplicates(),
            forall|i: int, j: int|
                0 <= i < j < r@.len() ==> device_key(#[trigger] r@[i]) <= device_key(#[trigger] r@[j]),
            forall|i: int, j: int|
                0 <= i < j < r@.len() ==> reported_before(#[trigger] r@[i], #[trigger] r@[j]),
    {
        proof {
            use_type_invariant(self);
        }
        let mut v: Vec<Device> = Vec::new();
        let mut i: usize = 0;
        while i < self.entries.len()
            invariant
                i <= self.entries@.len(),
                v@.len() == i,
                forall|k: int| 0 <= k < i ==> #[trigger] v@[k] == self.entries@[k].0,
            decreases self.entries.len() - i,
        {
            v.push(self.entries[i].0);
            i += 1;
        }
        let ghost keys = v@;
        proof {
            assert(keys.no_duplicates()) by {
                assert forall|a: int, b: int| 0 <= a < keys.len() && 0 <= b < keys.len() && a != b implies keys[a] != keys[b] by {
                    if a < b {
                        assert(self.entries@[a].0 != self.entries@[b].0);
                    } else {
                        assert(self.entries@[b].0 != self.entries@[a].0);
                    }
                }
            }
        }
        sort_devices(&mut v);
        proof {
            broadcast use vstd::seq_lib::to_multiset_contains;

            assert forall|d: Device| #[trigger] v@.contains(d) <==> self@.dom().contains(d) by {
                assert(v@.contains(d) <==> v@.to_multiset().count(d) > 0);
                assert(keys.contains(d) <==> keys.to_multiset().count(d) > 0);
                if keys.contains(d) {
                    let k = choose|k: int| 0 <= k < keys.len() && keys[k] == d;
                    assert(self.entries@[k].0 == d);
                }
                if self@.dom().contains(d) {
                    let k = choose|k: int| 0 <= k < self.entries@.len() && (#[trigger] self.entries@[k]).0 == d;
                    assert(keys[k] == d);
                }
            }
            keys.lemma_multiset_has_no_duplicates();
            v@.lemma_multiset_has_no_duplicates_conv();
        }
        v
    }
}

/// The backend serving `device` in `registry`: the registered one, or,
/// for the CPU, `cpu`, registered on first use so the CPU is never
/// unavailable; `BackendUnavailable` for any other device without one.
pub fn backend_for<B>(registry: &mut Registry<B>, device: Device, cpu: B) -> (r: Result<&B, Error>)
    ensures
        device == Device::Cpu ==> r is Ok,
        old(registry)@.dom().contains(device) ==> final(registry)@ == old(registry)@ && (r matches Ok(
            b,
        ) && *b == old(registry)@[device]),
        !old(registry)@.dom().contains(device) && device == Device::Cpu ==> final(registry)@ == old(
            registry,
        )@.insert(device, cpu) && (r matches Ok(b) && *b == cpu),
        !old(registry)@.dom().contains(device) && device != Device::Cpu ==> final(registry)@ == old(
            registry,
        )@ && (r matches Err(e) && e matches Error::BackendUnavailable { device: d } && d == device),
{
    if registry.lookup(device).is_none() {
        if device == Device::Cpu {
            registry.register(device, cpu);
        } else {
            return Err(Error::BackendUnavailable { device });
        }
    }
    match registry.lookup(device) {
        Some(b) => Ok(b),
        None => Err(Error::BackendUnavailable { device }),
    }
}


/// Registering a backend makes it the one served for its device and
/// leaves every other device's backend as it was.
pub proof fn law_register_then_lookup<B>(before: Map<Device, B>, after: Map<Device, B>, device: Device, backend: B)
    requires
        after == before.insert(device, backend),
    ensures
        after.dom().contains(device) && after[device] == backend,
        forall|d: Device| d != device ==> (#[trigger] after.dom().contains(d) <==> before.dom().contains(d)),
        forall|d: Device| d != device && before.dom().contains(d) ==> #[trigger] after[d] == before[d],
{
}


/// How a tensor's data reaches another device.
#[derive(Debug, Clone, Copy, PartialEq, Eq, Structural)]
pub enum Transfer {
    /// Already there: the tensor itself.
    Stay,
    /// From host memory up to the target's backend.
    Upload,
    /// From the source's backend down to host memory.
    Download,
    /// Down to host memory from the source, then up to the target.
    Relay,
}

/// The route from device `from` to device `to`.
pub open spec fn transfer_spec(from: Device, to: Device) -> Transfer {
    if from == to {
        Transfer::Stay
    } else if from == Device::Cpu {
        Transfer::Upload
    } else if to == Device::Cpu {
        Transfer::Download
    } else {
        Transfer::Relay
    }
}

/// The route a tensor's data takes from `from` to `to`: nothing moves
/// within a device, the host uploads and downloads directly, and two
/// accelerators exchange data through the host.
pub fn transfer_route(from: Device, to: Device) -> (r: Transfer)
    ensures
        r == transfer_spec(from, to),
        (r is Stay) == (from == to),
        (r is Upload) == (from != to && from is Cpu),
        (r is Download) == (from != to && to is Cpu),
        (r is Relay) == (from != to && !(from is Cpu) && !(to is Cpu)),
{
    if from == to {
        Transfer::Stay
    } else if from == Device::Cpu {
        Transfer::Upload
    } else if to == Device::Cpu {
        Transfer::Download
    } else {
        Transfer::Relay
    }
}

/// Moving a tensor leaves it in place only when it is already on the
/// target; otherwise the data leaves the source (unless that is the host)
/// and arrives at the target (unless that is the host), going through
/// the host between two accelerators.
pub proof fn law_transfer_moves_to_the_target(from: Device, to: Device)
    ensures
        (transfer_spec(from, to) is Stay) <==> from == to,
        from != to ==> ((transfer_spec(from, to) is Upload || transfer_spec(from, to) is Relay)
            <==> !(to is Cpu)),
        from != to ==> ((transfer_spec(from, to) is Download || transfer_spec(from, to) is Relay)
            <==> !(from is Cpu)),
        from != to && !(from is Cpu) && !(to is Cpu) ==> transfer_spec(from, to) is Relay,
{
}

/// Whether a primitive that a backend refused with `e` on `device` runs
/// on the CPU backend instead, through a round trip: only a refusal as
/// `NotImplemented`, and only off the CPU (the CPU has nowhere to fall
/// back to).
pub fn retry_on_cpu(e: &Error, device: Device) -> (r: bool)
    ensures
        r == (e is NotImplemented && device != Device::Cpu),
{
    match e {
        Error::NotImplemented { .. } => device != Device::Cpu,
        _ => false,
    }
}

} // verus!

use crate::geometry::{
    comes_before, Cord, cord_lt, lemma_linear_index_bound, lemma_linear_index_injective,
    linear_index,
};
use crate::grid::{lemma_volume_bound, MAX_SIDE};
use vstd::prelude::*;
use vstd::string::StringExecFns;

verus! {

/// Which way a model is to be worked, and the number of the problem where it has one.
#[derive(Copy, Clone, Debug)]
pub enum ModelId {
    Assemble(Option<usize>),
    Disassemble(Option<usize>),
}

/// A target shape: the side of the grid, the packed voxel bits, and the coordinates of the
/// voxels that are set.
pub struct Model {
    pub id: ModelId,
    pub r: usize,
    pub bytes: Vec<u8>,
    pub targets: Vec<Cord>,
}

/// Why a model file was not accepted.
#[derive(Copy, Clone, Debug, PartialEq, Eq)]
pub enum ModelError {
    /// The file does not hold the byte that gives the side of the grid.
    Empty,
    /// The file holds fewer voxel bits than the grid has voxels.
    Truncated,
}

/// The bit of the voxel with the given linear index: bit `index % 8`, counted from the
/// least significant, of byte `index / 8`.
pub open spec fn voxel_bit(bytes: Seq<u8>, index: int) -> bool {
    bytes[index / 8] & (1u8 << ((index % 8) as u8)) != 0
}

/// The character of a decimal digit.
pub open spec fn digit_char(d: int) -> char {
    if d == 0 {
        '0'
    } else if d == 1 {
        '1'
    } else if d == 2 {
        '2'
    } else if d == 3 {
        '3'
    } else if d == 4 {
        '4'
    } else if d == 5 {
        '5'
    } else if d == 6 {
        '6'
    } else if d == 7 {
        '7'
    } else if d == 8 {
        '8'
    } else {
        '9'
    }
}

/// The decimal digits of `n`, without leading zeros.
pub open spec fn decimal(n: nat) -> Seq<char>
    decreases n,
{
    if n < 10 {
        seq![digit_char(n as int)]
    } else {
        decimal(n / 10).push(digit_char((n % 10) as int))
    }
}

/// The decimal digits of `n`, with leading zeros where there are fewer than three.
pub open spec fn padded(n: nat) -> Seq<char> {
    if n < 10 {
        seq!['0', '0'] + decimal(n)
    } else if n < 100 {
        seq!['0'] + decimal(n)
    } else {
        decimal(n)
    }
}

/// The text of one decimal digit.
fn digit_str(d: usize) -> (s: &'static str)
    requires
        d < 10,
    ensures
        s@ == seq![digit_char(d as int)],
{
    proof {
        reveal_strlit("0");
        reveal_strlit("1");
        reveal_strlit("2");
        reveal_strlit("3");
        reveal_strlit("4");
        reveal_strlit("5");
        reveal_strlit("6");
        reveal_strlit("7");
        reveal_strlit("8");
        reveal_strlit("9");
    }
    let s = if d == 0 {
        "0"
    } else if d == 1 {
        "1"
    } else if d == 2 {
        "2"
    } else if d == 3 {
        "3"
    } else if d == 4 {
        "4"
    } else if d == 5 {
        "5"
    } else if d == 6 {
        "6"
    } else if d == 7 {
        "7"
    } else if d == 8 {
        "8"
    } else {
        "9"
    };
    assert(s@ =~= seq![digit_char(d as int)]);
    s
}

/// Puts the decimal digits of `n` at the end of `s`.
fn append_decimal(s: &mut String, n: usize)
    ensures
        final(s)@ == old(s)@ + decimal(n as nat),
    decreases n,
{
    if n >= 10 {
        append_decimal(s, n / 10);
    }
    s.append(digit_str(n % 10));
    assert(s@ =~= old(s)@ + decimal(n as nat));
}

/// Puts the decimal digits of `n` at the end of `s`, three of them at least.
fn append_padded(s: &mut String, n: usize)
    ensures
        final(s)@ == old(s)@ + padded(n as nat),
{
    proof {
        reveal_strlit("00");
        reveal_strlit("0");
    }
    if n < 10 {
        s.append("00");
    } else if n < 100 {
        s.append("0");
    }
    append_decimal(s, n);
    assert(s@ =~= old(s)@ + padded(n as nat));
}

impl ModelId {
    /// Whether the model is to be assembled.
    pub open spec fn is_assemble(self) -> bool {
        self is Assemble
    }

    /// The name of the model: `FA` or `FD` and the number of the problem, in three digits
    /// at least; a word for it where it has no number.
    pub open spec fn spec_name(self) -> Seq<char> {
        match self {
            ModelId::Assemble(Some(id)) => "FA"@ + padded(id as nat),
            ModelId::Assemble(None) => "Assemple(None)"@,
            ModelId::Disassemble(Some(id)) => "FD"@ + padded(id as nat),
            ModelId::Disassemble(None) => "Disassemple(Unknown)"@,
        }
    }

    /// The name of the file that holds the model.
    pub open spec fn spec_filename(self) -> Seq<char> {
        match self {
            ModelId::Assemble(_) => self.spec_name() + "_tgt.mdl"@,
            ModelId::Disassemble(_) => self.spec_name() + "_src.mdl"@,
        }
    }

    /// The number of the problem, where the model has one.
    pub open spec fn number(self) -> Option<usize> {
        match self {
            ModelId::Assemble(id) => id,
            ModelId::Disassemble(id) => id,
        }
    }

    /// The name of the model.
    pub fn name(&self) -> (s: String)
        ensures
            s@ == self.spec_name(),
    {
        match self {
            ModelId::Assemble(Some(id)) => {
                let mut s = String::from_str("FA");
                append_padded(&mut s, *id);
                s
            },
            ModelId::Assemble(None) => String::from_str("Assemple(None)"),
            ModelId::Disassemble(Some(id)) => {
                let mut s = String::from_str("FD");
                append_padded(&mut s, *id);
                s
            },
            ModelId::Disassemble(None) => String::from_str("Disassemple(Unknown)"),
        }
    }

    /// The name of the file that holds the model of a numbered problem.
    pub fn filename(&self) -> (s: String)
        requires
            self.number() is Some,
        ensures
            s@ == self.spec_filename(),
    {
        let mut s = self.name();
        match self {
            ModelId::Assemble(_) => {
                s.append("_tgt.mdl");
            },
            ModelId::Disassemble(_) => {
                s.append("_src.mdl");
            },
        }
        s
    }
}

/// Whether one of the first `k` of `targets` has the linear index `index` in a grid of side
/// `r`.
pub open spec fn marked_upto(targets: Seq<Cord>, r: int, k: int, index: int) -> bool {
    exists|j: int| 0 <= j < k && linear_index(#[trigger] targets[j], r) == index
}

/// A byte with a bit set has that bit set, and the other bits as they were.
proof fn lemma_set_bit(b: u8, j: u8, k: u8)
    requires
        j < 8,
        k < 8,
    ensures
        ((b | (1u8 << j)) & (1u8 << k) != 0) == ((b & (1u8 << k) != 0) || k == j),
{
    assert(((b | (1u8 << j)) & (1u8 << k) != 0) == ((b & (1u8 << k) != 0) || k == j))
        by (bit_vector)
        requires
            j < 8,
            k < 8,
    ;
}

/// No bit of the byte zero is set.
proof fn lemma_clear_bit(k: u8)
    ensures
        0u8 & (1u8 << k) == 0,
{
    assert(0u8 & (1u8 << k) == 0) by (bit_vector);
}

impl Model {
    /// Whether the voxel at `c` belongs to the shape.
    pub open spec fn is_target(&self, c: Cord) -> bool {
        c.in_range(self.r as int) && voxel_bit(self.bytes@, linear_index(c, self.r as int))
    }

    /// The bits cover the grid, and `targets` lists the set voxels once each in
    /// lexicographic order.
    pub open spec fn wf(&self) -> bool {
        &&& self.r <= MAX_SIDE
        &&& self.bytes.len() * 8 >= self.r * self.r * self.r
        &&& forall|c: Cord| self.targets@.contains(c) <==> self.is_target(c)
        &&& forall|i: int, j: int|
            0 <= i < j < self.targets.len() ==> cord_lt(self.targets[i], self.targets[j])
    }

    /// Whether the voxel at `c` belongs to the shape.
    pub fn has_target(&self, c: Cord) -> (b: bool)
        requires
            self.r <= MAX_SIDE,
            self.bytes.len() * 8 >= self.r * self.r * self.r,
        ensures
            b == self.is_target(c),
    {
        if !c.is_in_range(self.r) {
            return false;
        }
        proof {
            lemma_volume_bound(self.r as int);
            lemma_linear_index_bound(c, self.r as int);
        }
        let index = c.to_linear_index(self.r);
        let bi = index / 8;
        let br: u8 = (index % 8) as u8;
        (self.bytes[bi] & (1u8 << br)) != 0
    }

    /// The voxels of the shape, once each, in lexicographic order.
    fn listed(&self) -> (targets: Vec<Cord>)
        requires
            self.r <= MAX_SIDE,
            self.bytes.len() * 8 >= self.r * self.r * self.r,
        ensures
            forall|c: Cord| targets@.contains(c) <==> self.is_target(c),
            forall|i: int, j: int| 0 <= i < j < targets.len() ==> cord_lt(targets[i], targets[j]),
    {
        let model = self;
        let r = self.r;
        let mut targets: Vec<Cord> = Vec::new();
        let mut x: usize = 0;
        while x < r
            invariant
                r == model.r && r <= MAX_SIDE,
                model.bytes.len() * 8 >= r * r * r,
                x <= r,
                forall|k: int|
                    0 <= k < targets.len() ==> model.is_target(#[trigger] targets[k])
                        && comes_before(targets[k], x as int, 0, 0),
                forall|c: Cord|
                    model.is_target(c) && comes_before(c, x as int, 0, 0) ==> targets@.contains(c),
                forall|i: int, j: int|
                    0 <= i < j < targets.len() ==> cord_lt(targets[i], targets[j]),
            decreases r - x,
        {
            let mut y: usize = 0;
            while y < r
                invariant
                    r == model.r && r <= MAX_SIDE,
                        model.bytes.len() * 8 >= r * r * r,
                    x < r,
                    y <= r,
                    forall|k: int|
                        0 <= k < targets.len() ==> model.is_target(#[trigger] targets[k])
                            && comes_before(targets[k], x as int, y as int, 0),
                    forall|c: Cord|
                        model.is_target(c) && comes_before(c, x as int, y as int, 0)
                            ==> targets@.contains(c),
                    forall|i: int, j: int|
                        0 <= i < j < targets.len() ==> cord_lt(targets[i], targets[j]),
                decreases r - y,
            {
                let mut z: usize = 0;
                while z < r
                    invariant
                        r == model.r && r <= MAX_SIDE,
                        model.bytes.len() * 8 >= r * r * r,
                        x < r,
                        y < r,
                        z <= r,
                        forall|k: int|
                            0 <= k < targets.len() ==> model.is_target(#[trigger] targets[k])
                                && comes_before(targets[k], x as int, y as int, z as int),
                        forall|c: Cord|
                            model.is_target(c) && comes_before(c, x as int, y as int, z as int)
                                ==> targets@.contains(c),
                        forall|i: int, j: int|
                            0 <= i < j < targets.len() ==> cord_lt(targets[i], targets[j]),
                    decreases r - z,
                {
                    let c = Cord::new(x as i32, y as i32, z as i32);
                    let ghost before = targets@;
                    if model.has_target(c) {
                        targets.push(c);
                    }
                    proof {
                        assert forall|e: Cord|
                            model.is_target(e) && comes_before(
                                e,
                                x as int,
                                y as int,
                                z + 1,
                            ) implies targets@.contains(e) by {
                            if e == c {
                                assert(targets@[before.len() as int] == e);
                            } else {
                                assert(before.contains(e));
                                let k = choose|k: int| 0 <= k < before.len() && before[k] == e;
                                assert(targets@[k] == e);
                            }
                        }
                    }
                    z = z + 1;
                }
                y = y + 1;
            }
            x = x + 1;
        }
        proof {
            assert forall|c: Cord| targets@.contains(c) implies self.is_target(c) by {
                let k = choose|k: int| 0 <= k < targets.len() && targets[k] == c;
                assert(self.is_target(targets[k]));
            }
        }
        targets
    }

    /// The model of side `r` whose shape is the voxels `targets`: the bits are packed as in
    /// a model file, into as many bytes as the grid needs.
    pub fn from_targets(id: ModelId, r: usize, targets: &Vec<Cord>) -> (m: Model)
        requires
            r <= MAX_SIDE,
            forall|i: int| 0 <= i < targets.len() ==> (#[trigger] targets[i]).in_range(r as int),
        ensures
            m.wf(),
            m.id == id,
            m.r == r,
            m.bytes.len() == (r * r * r + 7) / 8,
            forall|c: Cord| m.is_target(c) <==> targets@.contains(c),
    {
        proof {
            lemma_volume_bound(r as int);
        }
        let n = (r * r * r + 7) / 8;
        let mut bytes: Vec<u8> = Vec::new();
        let mut f: usize = 0;
        while f < n
            invariant
                f <= n,
                bytes.len() == f,
                forall|i: int| 0 <= i < f ==> bytes[i] == 0,
            decreases n - f,
        {
            bytes.push(0u8);
            f = f + 1;
        }
        proof {
            assert forall|index: int| 0 <= index < 8 * n implies !voxel_bit(bytes@, index) by {
                lemma_clear_bit((index % 8) as u8);
            }
        }
        let mut k: usize = 0;
        while k < targets.len()
            invariant
                r <= MAX_SIDE,
                n == (r * r * r + 7) / 8,
                bytes.len() == n,
                k <= targets.len(),
                forall|i: int| 0 <= i < targets.len() ==> (#[trigger] targets[i]).in_range(r as int),
                forall|index: int|
                    0 <= index < 8 * n ==> voxel_bit(bytes@, index) == marked_upto(
                        targets@,
                        r as int,
                        k as int,
                        index,
                    ),
            decreases targets.len() - k,
        {
            let t = targets[k];
            proof {
                lemma_volume_bound(r as int);
                lemma_linear_index_bound(t, r as int);
            }
            let at = t.to_linear_index(r);
            let bi = at / 8;
            let br: u8 = (at % 8) as u8;
            let was = bytes[bi];
            let ghost before = bytes@;
            bytes.set(bi, was | (1u8 << br));
            proof {
                assert forall|index: int| 0 <= index < 8 * n implies voxel_bit(bytes@, index)
                    == marked_upto(targets@, r as int, k + 1, index) by {
                    assert(voxel_bit(before, index) == marked_upto(
                        targets@,
                        r as int,
                        k as int,
                        index,
                    ));
                    if index / 8 == bi {
                        lemma_set_bit(was, br, (index % 8) as u8);
                    }
                    if index == at {
                        assert(linear_index(targets@[k as int], r as int) == index);
                    }
                    if marked_upto(targets@, r as int, k + 1, index) && index != at {
                        let j = choose|j: int|
                            0 <= j < k + 1 && linear_index(targets@[j], r as int) == index;
                        assert(j < k);
                    }
                }
            }
            k = k + 1;
        }
        let mut model = Model { id, r, bytes, targets: Vec::new() };
        proof {
            assert forall|c: Cord| model.is_target(c) <==> targets@.contains(c) by {
                if c.in_range(r as int) {
                    lemma_linear_index_bound(c, r as int);
                    let index = linear_index(c, r as int);
                    assert(voxel_bit(model.bytes@, index) == marked_upto(
                        targets@,
                        r as int,
                        targets.len() as int,
                        index,
                    ));
                    if marked_upto(targets@, r as int, targets.len() as int, index) {
                        let j = choose|j: int|
                            0 <= j < targets.len() && linear_index(targets@[j], r as int) == index;
                        lemma_linear_index_injective(targets@[j], c, r as int);
                    }
                    if targets@.contains(c) {
                        let j = choose|j: int| 0 <= j < targets.len() && targets@[j] == c;
                        assert(linear_index(targets@[j], r as int) == index);
                    }
                } else if targets@.contains(c) {
                    let j = choose|j: int| 0 <= j < targets.len() && targets@[j] == c;
                    assert(targets[j].in_range(r as int));
                }
            }
        }
        let listed = model.listed();
        let ghost packed = model;
        model.targets = listed;
        proof {
            assert forall|c: Cord| model.is_target(c) == packed.is_target(c) by {}
        }
        model
    }

    /// Reads a model from the bytes of a model file: one byte for the side `r` of the grid,
    /// then the voxels' bits, eight to a byte.
    pub fn read(id: ModelId, data: &[u8]) -> (res: Result<Model, ModelError>)
        ensures
            data.len() == 0 ==> res == Err::<Model, ModelError>(ModelError::Empty),
            data.len() > 0 && (data.len() - 1) * 8 < data[0] * data[0] * data[0] ==> res == Err::<
                Model,
                ModelError,
            >(ModelError::Truncated),
            data.len() > 0 && (data.len() - 1) * 8 >= data[0] * data[0] * data[0] ==> res is Ok,
            res matches Ok(model) ==> {
                &&& model.wf()
                &&& model.id == id
                &&& model.r == data[0]
                &&& model.bytes@ == data@.subrange(1, data.len() as int)
            },
    {
        if data.len() == 0 {
            return Err(ModelError::Empty);
        }
        let r = data[0] as usize;
        proof {
            lemma_volume_bound(r as int);
        }
        if (data.len() - 1) < (r * r * r + 7) / 8 {
            return Err(ModelError::Truncated);
        }
        let mut bytes: Vec<u8> = Vec::new();
        let mut k: usize = 1;
        while k < data.len()
            invariant
                1 <= k <= data.len(),
                bytes@ == data@.subrange(1, k as int),
            decreases data.len() - k,
        {
            bytes.push(data[k]);
            assert(bytes@ =~= data@.subrange(1, k as int + 1));
            k = k + 1;
        }
        assert(bytes@ == data@.subrange(1, data.len() as int));
        let mut model = Model { id, r, bytes, targets: Vec::new() };
        let targets = model.listed();
        let ghost scanned = model;
        model.targets = targets;
        proof {
            assert forall|c: Cord| model.is_target(c) == scanned.is_target(c) by {}
        }
        Ok(model)
    }
}

} // verus!

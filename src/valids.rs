use crate::opcode::{immediate_len, Opcode, JUMPDEST_BYTE};
use vstd::prelude::*;

verus! {

/// Where the instruction that starts at `p` ends: past its byte and its immediate data.
pub open spec fn next_instr(code: Seq<u8>, p: nat) -> nat {
    p + 1 + immediate_len(code[p as int])
}

/// Decoding from `p`, instruction by instruction, lands exactly on `t`.
pub open spec fn reaches(code: Seq<u8>, p: nat, t: nat) -> bool
    decreases t - p,
{
    if p == t {
        true
    } else if p < t && p < code.len() && next_instr(code, p) <= t {
        reaches(code, next_instr(code, p), t)
    } else {
        false
    }
}

/// Offset `t` starts an instruction when code is decoded from its start.
pub open spec fn is_boundary(code: Seq<u8>, t: nat) -> bool {
    reaches(code, 0, t)
}

/// The legal jump targets of `code`: the jump-destination bytes that start an instruction.
pub open spec fn valid_targets(code: Seq<u8>) -> Seq<bool> {
    Seq::new(code.len(), |t: int| is_boundary(code, t as nat) && code[t] == JUMPDEST_BYTE)
}

proof fn lemma_reaches_trans(code: Seq<u8>, a: nat, b: nat, c: nat)
    requires
        reaches(code, a, b),
        reaches(code, b, c),
    ensures
        reaches(code, a, c),
    decreases b - a,
{
    if a != b {
        lemma_reaches_trans(code, next_instr(code, a), b, c);
        lemma_reaches_order(code, b, c);
    }
}

proof fn lemma_reaches_order(code: Seq<u8>, a: nat, b: nat)
    requires
        reaches(code, a, b),
    ensures
        a <= b,
    decreases b - a,
{
}

/// Two offsets reached from one start lie on the same chain of instructions.
proof fn lemma_reaches_chain(code: Seq<u8>, p: nat, i: nat, t: nat)
    requires
        reaches(code, p, i),
        reaches(code, p, t),
        i <= t,
    ensures
        reaches(code, i, t),
    decreases i - p,
{
    lemma_reaches_order(code, p, i);
    if p != i {
        if p == t {
            assert(false);
        }
        lemma_reaches_chain(code, next_instr(code, p), i, t);
    }
}

/// No offset strictly inside an instruction (in its immediate data) is a boundary.
pub proof fn lemma_inside_not_boundary(code: Seq<u8>, p: nat, o: nat)
    requires
        is_boundary(code, p),
        p < code.len(),
        p < o < next_instr(code, p),
    ensures
        !is_boundary(code, o),
{
    if is_boundary(code, o) {
        lemma_reaches_chain(code, 0, p, o);
        lemma_reaches_order(code, next_instr(code, p), o);
    }
}

/// Whatever byte stands in the immediate data of a push instruction that starts an
/// instruction, that offset is no legal jump target.
pub proof fn lemma_push_data_not_target(code: Seq<u8>, p: nat, o: nat)
    requires
        is_boundary(code, p),
        p < code.len(),
        p < o <= p + immediate_len(code[p as int]),
        o < code.len(),
    ensures
        !valid_targets(code)[o as int],
{
    lemma_inside_not_boundary(code, p, o);
}

/// The map of legal jump targets, one flag per code offset.
pub struct Valids {
    data: Vec<bool>,
}

impl View for Valids {
    type V = Seq<bool>;

    closed spec fn view(&self) -> Seq<bool> {
        self.data@
    }
}

impl Valids {
    /// Scans `code` once, skipping the immediate data of push instructions.
    pub fn new(code: &[u8]) -> (r: Valids)
        ensures
            r@ == valid_targets(code@),
    {
        let n = code.len();
        let mut data: Vec<bool> = Vec::new();
        let mut k: usize = 0;
        while k < n
            invariant
                k <= n,
                n == code@.len(),
                data@.len() == k,
                forall|j: int| 0 <= j < k ==> !data@[j],
            decreases n - k,
        {
            data.push(false);
            k += 1;
        }
        let mut i: usize = 0;
        while i < n
            invariant
                i <= n,
                n == code@.len(),
                data@.len() == n,
                i < n ==> is_boundary(code@, i as nat),
                forall|t: int|
                    0 <= t < n ==> data@[t] == (t < i && is_boundary(code@, t as nat) && code@[t]
                        == JUMPDEST_BYTE),
            decreases n - i,
        {
            let b = code[i];
            if b == JUMPDEST_BYTE {
                data.set(i, true);
            }
            let step = 1 + Opcode::push_len(b);
            let ghost old_i = i as nat;
            let ghost next = next_instr(code@, old_i);
            proof {
                assert forall|t: int| old_i < t < next implies !#[trigger] is_boundary(code@, t as nat) by {
                    lemma_inside_not_boundary(code@, old_i, t as nat);
                }
                assert(reaches(code@, old_i, next)) by {
                    assert(reaches(code@, next, next));
                }
                lemma_reaches_trans(code@, 0, old_i, next);
            }
            if step > n - i {
                i = n;
            } else {
                i = i + step;
            }
        }
        Valids { data }
    }

    /// Whether `offset` is a legal jump target; `false` past the end of the code.
    pub fn is_valid(&self, offset: usize) -> (r: bool)
        ensures
            r == (offset < self@.len() && self@[offset as int]),
    {
        offset < self.data.len() && self.data[offset]
    }

    pub fn len(&self) -> (r: usize)
        ensures
            r == self@.len(),
    {
        self.data.len()
    }
}

} // verus!

//! The bookkeeping around GPT-2's forward pass: the KV cache that keeps
//! every block's keys and values between steps, and the decisions of the
//! generation loop.

use crate::safetensors::{RawTensor, SafeTensors, SafeTensorsError};
use vstd::prelude::*;
use vstd::string::StringExecFns;

verus! {

/// Number of transformer blocks in GPT-2 small.
pub const N_LAYER: usize = 12;

/// Longest input GPT-2 can read.
pub const MAX_POS: usize = 1024;

/// Numbers per token in each key row and each value row.
pub const DIM: usize = 768;

/// Words in GPT-2's vocabulary.
pub const VOCAB: usize = 50257;

/// Width of the hidden layer of each block's MLP.
pub const MLP_DIM: usize = 4 * DIM;

/// GPT-2's "the document is over" token.
pub const END_OF_TEXT: u32 = 50256;

/// The KV cache: for every block, the key rows and the value rows of every
/// token seen so far, one flat list per block.
pub struct KvCache<T> {
    k: Vec<Vec<T>>,
    v: Vec<Vec<T>>,
    len: usize,
}

impl<T> KvCache<T> {
    /// One list per block, never more than [`MAX_POS`] tokens, and in every
    /// block as many keys as values, with a row of [`DIM`] of each for every
    /// stored token (the rows of tokens on their way in may follow).
    #[verifier::type_invariant]
    pub closed spec fn wf(&self) -> bool {
        &&& self.k.len() == N_LAYER
        &&& self.v.len() == N_LAYER
        &&& self.len <= MAX_POS
        &&& forall|l: int| 0 <= l < N_LAYER ==> (#[trigger] self.k@[l])@.len() == self.v@[l]@.len()
        &&& forall|l: int| 0 <= l < N_LAYER ==> (#[trigger] self.k@[l])@.len() >= self.len * DIM
    }
}

impl<T: Copy> KvCache<T> {
    /// Each block's keys.
    pub closed spec fn keys(&self) -> Seq<Seq<T>> {
        self.k@.map_values(|r: Vec<T>| r@)
    }

    /// Each block's values.
    pub closed spec fn values(&self) -> Seq<Seq<T>> {
        self.v@.map_values(|r: Vec<T>| r@)
    }

    /// How many tokens are stored.
    pub closed spec fn stored(&self) -> nat {
        self.len as nat
    }

    /// Every block holds exactly `rows` key rows and `rows` value rows.
    pub open spec fn holds(&self, rows: int) -> bool {
        &&& self.keys().len() == N_LAYER
        &&& self.values().len() == N_LAYER
        &&& forall|l: int| 0 <= l < N_LAYER ==> (#[trigger] self.keys()[l]).len() == rows * DIM
        &&& forall|l: int| 0 <= l < N_LAYER ==> (#[trigger] self.values()[l]).len() == rows * DIM
    }


    /// An empty cache: nothing is remembered.
    pub fn new() -> (c: KvCache<T>)
        ensures
            c.stored() == 0,
            c.holds(0),
            c.keys().len() == N_LAYER,
            c.values().len() == N_LAYER,
            forall|l: int| 0 <= l < N_LAYER ==> (#[trigger] c.keys()[l]).len() == 0,
            forall|l: int| 0 <= l < N_LAYER ==> (#[trigger] c.values()[l]).len() == 0,
    {
        let mut k: Vec<Vec<T>> = Vec::new();
        let mut v: Vec<Vec<T>> = Vec::new();
        while k.len() < N_LAYER
            invariant
                k.len() == v.len(),
                k.len() <= N_LAYER,
                forall|l: int| 0 <= l < k.len() ==> (#[trigger] k@[l])@.len() == 0,
                forall|l: int| 0 <= l < v.len() ==> (#[trigger] v@[l])@.len() == 0,
            decreases N_LAYER - k.len(),
        {
            k.push(Vec::new());
            v.push(Vec::new());
        }
        let c = KvCache { k, v, len: 0 };
        proof {
            assert(c.keys().len() == N_LAYER);
        }
        c
    }

    /// How many tokens are stored.
    pub fn len(&self) -> (n: usize)
        ensures
            n == self.stored(),
            n <= MAX_POS,
    {
        proof {
            use_type_invariant(self);
        }
        self.len
    }

    /// Whether `n` new tokens fit: at least one, and no more than
    /// [`MAX_POS`] in total.
    pub fn has_room(&self, n: usize) -> (b: bool)
        ensures
            b == (n > 0 && self.stored() + n <= MAX_POS),
    {
        proof {
            use_type_invariant(self);
        }
        n > 0 && n <= MAX_POS - self.len
    }

    /// Block `layer`'s keys.
    pub fn layer_keys(&self, layer: usize) -> (r: &Vec<T>)
        requires
            layer < N_LAYER,
        ensures
            r@ == self.keys()[layer as int],
            r@.len() == self.values()[layer as int].len(),
            r@.len() >= self.stored() * DIM,
    {
        proof {
            use_type_invariant(self);
        }
        &self.k[layer]
    }

    /// Block `layer`'s values.
    pub fn layer_values(&self, layer: usize) -> (r: &Vec<T>)
        requires
            layer < N_LAYER,
        ensures
            r@ == self.values()[layer as int],
            r@.len() == self.keys()[layer as int].len(),
            r@.len() >= self.stored() * DIM,
    {
        proof {
            use_type_invariant(self);
            assert(self.k@[layer as int]@.len() >= self.len * DIM);
        }
        &self.v[layer]
    }

    /// Appends one token's key row and value row to block `layer`.
    pub fn append(&mut self, layer: usize, k_row: &[T], v_row: &[T])
        requires
            layer < N_LAYER,
            k_row@.len() == DIM,
            v_row@.len() == DIM,
        ensures
            final(self).stored() == old(self).stored(),
            final(self).keys() == old(self).keys().update(
                layer as int,
                old(self).keys()[layer as int] + k_row@,
            ),
            final(self).values() == old(self).values().update(
                layer as int,
                old(self).values()[layer as int] + v_row@,
            ),
    {
        proof {
            use_type_invariant(&*self);
        }
        let ghost old_keys = self.keys();
        let ghost old_values = self.values();
        let mut taken = KvCache::new();
        std::mem::swap(self, &mut taken);
        proof {
            use_type_invariant(&taken);
        }
        let KvCache { mut k, mut v, len } = taken;
        let mut kl = k.remove(layer);
        extend_rows(&mut kl, k_row);
        k.insert(layer, kl);
        let mut vl = v.remove(layer);
        extend_rows(&mut vl, v_row);
        v.insert(layer, vl);
        *self = KvCache { k, v, len };
        proof {
            assert(self.keys() =~= old_keys.update(layer as int, old_keys[layer as int] + k_row@));
            assert(self.values() =~= old_values.update(
                layer as int,
                old_values[layer as int] + v_row@,
            ));
        }
    }

    /// Whether every block holds exactly `rows` key rows and value rows.
    pub fn holds_rows(&self, rows: usize) -> (b: bool)
        requires
            rows <= MAX_POS,
        ensures
            b == self.holds(rows as int),
    {
        proof {
            use_type_invariant(self);
        }
        let want = rows * DIM;
        let mut l: usize = 0;
        while l < N_LAYER
            invariant
                l <= N_LAYER,
                want == rows * DIM,
                self.keys().len() == N_LAYER,
                self.values().len() == N_LAYER,
                forall|j: int| 0 <= j < N_LAYER ==> (#[trigger] self.keys()[j]).len() == self.values()[j].len(),
                forall|j: int| 0 <= j < l ==> (#[trigger] self.keys()[j]).len() == want,
            decreases N_LAYER - l,
        {
            proof {
                assert(self.keys()[l as int] == self.k@[l as int]@);
            }
            if self.k[l].len() != want {
                return false;
            }
            l = l + 1;
        }
        proof {
            assert forall|j: int| 0 <= j < N_LAYER implies (#[trigger] self.values()[j]).len() == rows * DIM by {
                assert(self.keys()[j].len() == self.values()[j].len());
            }
        }
        true
    }

    /// Counts `n` more tokens as stored, once every block holds their rows.
    pub fn advance(&mut self, n: usize)
        requires
            old(self).stored() + n <= MAX_POS,
            old(self).holds(old(self).stored() + n),
        ensures
            final(self).stored() == old(self).stored() + n,
            final(self).holds(final(self).stored() as int),
            final(self).keys() == old(self).keys(),
            final(self).values() == old(self).values(),
    {
        proof {
            use_type_invariant(&*self);
            assert forall|l: int| 0 <= l < N_LAYER implies (#[trigger] self.k@[l])@.len() >= (self.len + n) * DIM by {
                assert(self.keys()[l] == self.k@[l]@);
            }
        }
        self.len = self.len + n;
    }
}

/// Appends `row` to `list`.
fn extend_rows<T: Copy>(list: &mut Vec<T>, row: &[T])
    ensures
        final(list)@ == old(list)@ + row@,
{
    let ghost start = list@;
    let mut i: usize = 0;
    while i < row.len()
        invariant
            i <= row.len(),
            list@ == start + row@.take(i as int),
        decreases row.len() - i,
    {
        list.push(row[i]);
        i = i + 1;
        proof {
            assert(list@ =~= start + row@.take(i as int));
        }
    }
    proof {
        assert(row@.take(row.len() as int) == row@);
    }
}

/// What the generation loop does with a sampled token.
#[derive(Debug, PartialEq, Eq)]
pub enum GenerationStep {
    /// The end-of-text token came: stop without keeping it.
    Stop,
    /// Keep the token and feed it back to the model.
    Emit(u32),
    /// Keep the token, but the cache is full: stop after it.
    EmitLast(u32),
}

/// The generation loop's state: the ids made so far, how many may be made,
/// how many tokens the cache held when the loop began (the prompt), and
/// whether it has ended.
pub struct Generation {
    produced: Vec<u32>,
    max_new: usize,
    start: usize,
    finished: bool,
}

impl Generation {
    /// The ids made so far.
    pub closed spec fn produced(&self) -> Seq<u32> {
        self.produced@
    }

    /// How many new ids may be made.
    pub closed spec fn limit(&self) -> nat {
        self.max_new as nat
    }

    /// How many tokens the cache held when the loop began.
    pub closed spec fn start(&self) -> nat {
        self.start as nat
    }

    /// Whether the loop has ended.
    pub closed spec fn is_finished(&self) -> bool {
        self.finished
    }

    /// Never more ids than the limit, never the end-of-text token, and never
    /// more tokens than the cache can take: each kept id but the last went
    /// into the cache, so the prompt and the ids number at most
    /// [`MAX_POS`] + 1, and at most [`MAX_POS`] while the loop goes on.
    #[verifier::type_invariant]
    pub closed spec fn wf(&self) -> bool {
        &&& self.produced.len() <= self.max_new
        &&& !self.produced@.contains(END_OF_TEXT)
        &&& self.start + self.produced.len() <= MAX_POS + 1
        &&& !self.finished ==> self.start + self.produced.len() <= MAX_POS
    }

    /// A loop that may make up to `max_new` ids after a prompt that filled
    /// the cache with `start` tokens.
    pub fn new(max_new: usize, start: usize) -> (g: Generation)
        requires
            start <= MAX_POS,
        ensures
            g.produced() == Seq::<u32>::empty(),
            g.limit() == max_new,
            g.start() == start,
            !g.is_finished(),
    {
        Generation { produced: Vec::new(), max_new, start, finished: false }
    }

    /// Whether another token should be sampled.
    pub fn wants_token(&self) -> (b: bool)
        ensures
            b == (!self.is_finished() && self.produced().len() < self.limit()),
    {
        !self.finished && self.produced.len() < self.max_new
    }

    /// How many tokens the cache holds while the loop runs: the prompt and
    /// every id kept so far.
    pub fn expected_cache_len(&self) -> (n: usize)
        ensures
            n == self.start() + self.produced().len(),
    {
        proof {
            use_type_invariant(self);
        }
        self.start + self.produced.len()
    }

    /// Takes the sampled token `id`, with `cache_len` tokens in the cache:
    /// the end-of-text token stops the loop; any other token is kept, and
    /// the loop stops after it when the cache is full.
    pub fn accept(&mut self, id: u32, cache_len: usize) -> (step: GenerationStep)
        requires
            !old(self).is_finished(),
            old(self).produced().len() < old(self).limit(),
            cache_len == old(self).start() + old(self).produced().len(),
        ensures
            final(self).limit() == old(self).limit(),
            final(self).start() == old(self).start(),
            id == END_OF_TEXT ==> {
                &&& step == GenerationStep::Stop
                &&& final(self).produced() == old(self).produced()
                &&& final(self).is_finished()
            },
            id != END_OF_TEXT && cache_len == MAX_POS ==> {
                &&& step == GenerationStep::EmitLast(id)
                &&& final(self).produced() == old(self).produced().push(id)
                &&& final(self).is_finished()
            },
            id != END_OF_TEXT && cache_len != MAX_POS ==> {
                &&& step == GenerationStep::Emit(id)
                &&& final(self).produced() == old(self).produced().push(id)
                &&& !final(self).is_finished()
            },
    {
        proof {
            use_type_invariant(&*self);
        }
        if id == END_OF_TEXT {
            self.finished = true;
            return GenerationStep::Stop;
        }
        let mut taken = Generation { produced: Vec::new(), max_new: 0, start: 0, finished: true };
        std::mem::swap(self, &mut taken);
        let Generation { mut produced, max_new, start, finished: _ } = taken;
        let ghost before = produced@;
        produced.push(id);
        proof {
            assert forall|j: int| 0 <= j < produced.len() implies produced@[j] != END_OF_TEXT by {
                if j < before.len() {
                    assert(before[j] == produced@[j]);
                    assert(!before.contains(END_OF_TEXT));
                }
            }
        }
        let full = cache_len == MAX_POS;
        *self = Generation { produced, max_new, start, finished: full };
        if full {
            GenerationStep::EmitLast(id)
        } else {
            GenerationStep::Emit(id)
        }
    }

    /// The ids made: at most the limit, at most [`MAX_POS`] + 1 minus the
    /// prompt's length, and none of them the end-of-text token.
    pub fn into_ids(self) -> (ids: Vec<u32>)
        ensures
            ids@ == self.produced(),
            ids@.len() <= self.limit(),
            ids@.len() <= MAX_POS + 1 - self.start(),
            !ids@.contains(END_OF_TEXT),
    {
        proof {
            use_type_invariant(&self);
        }
        self.produced
    }
}


// ---------------------------------------------------------------------------
// Which weights a GPT-2 checkpoint holds
// ---------------------------------------------------------------------------

/// The decimal digit `d`.
pub open spec fn digit_char(d: int) -> char {
    seq!['0', '1', '2', '3', '4', '5', '6', '7', '8', '9'][d]
}

/// `n` written in decimal.
pub open spec fn decimal(n: nat) -> Seq<char>
    decreases n,
{
    if n < 10 {
        seq![digit_char(n as int)]
    } else {
        decimal(n / 10).push(digit_char((n % 10) as int))
    }
}

/// The name of a block's tensor and its shape, `j` counting in file order.
pub open spec fn block_part(j: int) -> (Seq<char>, Seq<usize>) {
    if j == 0 {
        ("ln_1.weight"@, seq![DIM])
    } else if j == 1 {
        ("ln_1.bias"@, seq![DIM])
    } else if j == 2 {
        ("attn.c_attn.weight"@, seq![DIM, (3 * DIM) as usize])
    } else if j == 3 {
        ("attn.c_attn.bias"@, seq![(3 * DIM) as usize])
    } else if j == 4 {
        ("attn.c_proj.weight"@, seq![DIM, DIM])
    } else if j == 5 {
        ("attn.c_proj.bias"@, seq![DIM])
    } else if j == 6 {
        ("ln_2.weight"@, seq![DIM])
    } else if j == 7 {
        ("ln_2.bias"@, seq![DIM])
    } else if j == 8 {
        ("mlp.c_fc.weight"@, seq![DIM, MLP_DIM])
    } else if j == 9 {
        ("mlp.c_fc.bias"@, seq![MLP_DIM])
    } else if j == 10 {
        ("mlp.c_proj.weight"@, seq![MLP_DIM, DIM])
    } else {
        ("mlp.c_proj.bias"@, seq![DIM])
    }
}

/// The tensors outside the blocks and their shapes, in the order read.
pub open spec fn global_part(j: int) -> (Seq<char>, Seq<usize>) {
    if j == 0 {
        ("wte.weight"@, seq![VOCAB, DIM])
    } else if j == 1 {
        ("wpe.weight"@, seq![MAX_POS, DIM])
    } else if j == 2 {
        ("ln_f.weight"@, seq![DIM])
    } else {
        ("ln_f.bias"@, seq![DIM])
    }
}

/// The full name of part `suffix` of block `l`: `h.{l}.{suffix}`.
pub open spec fn block_tensor_name(l: nat, suffix: Seq<char>) -> Seq<char> {
    "h."@ + decimal(l) + "."@ + suffix
}

/// Every tensor GPT-2 small reads, with its shape, in the order read: the
/// twelve parts of each block, block by block, then the word table, the
/// position table and the final layer norm.
pub open spec fn weight_layout() -> Seq<(Seq<char>, Seq<usize>)> {
    Seq::new(
        (N_LAYER * 12 + 4) as nat,
        |i: int|
            if i < N_LAYER * 12 {
                (block_tensor_name((i / 12) as nat, block_part(i % 12).0), block_part(i % 12).1)
            } else {
                global_part(i - N_LAYER * 12)
            },
    )
}

/// The weights of GPT-2 small, in the order read: for each of the 12
/// blocks `l`, the tensors `h.{l}.ln_1.weight` [768], `ln_1.bias` [768],
/// `attn.c_attn.weight` [768, 2304], `attn.c_attn.bias` [2304],
/// `attn.c_proj.weight` [768, 768], `attn.c_proj.bias` [768], `ln_2.weight`
/// [768], `ln_2.bias` [768], `mlp.c_fc.weight` [768, 3072],
/// `mlp.c_fc.bias` [3072], `mlp.c_proj.weight` [3072, 768] and
/// `mlp.c_proj.bias` [768] (a linear layer's weight is stored input width
/// by output width); then `wte.weight` [50257, 768], `wpe.weight`
/// [1024, 768], `ln_f.weight` [768] and `ln_f.bias` [768]: 148 in all.
pub proof fn lemma_gpt2_small_layout(l: int)
    requires
        0 <= l < 12,
    ensures
        weight_layout().len() == 148,
        decimal(l as nat) == if l < 10 {
            seq![seq!['0', '1', '2', '3', '4', '5', '6', '7', '8', '9'][l]]
        } else {
            seq!['1', seq!['0', '1', '2', '3', '4', '5', '6', '7', '8', '9'][l - 10]]
        },
        weight_layout()[12 * l + 0] == ("h."@ + decimal(l as nat) + "."@ + "ln_1.weight"@, seq![768usize]),
        weight_layout()[12 * l + 1] == ("h."@ + decimal(l as nat) + "."@ + "ln_1.bias"@, seq![768usize]),
        weight_layout()[12 * l + 2] == ("h."@ + decimal(l as nat) + "."@ + "attn.c_attn.weight"@, seq![768usize, 2304usize]),
        weight_layout()[12 * l + 3] == ("h."@ + decimal(l as nat) + "."@ + "attn.c_attn.bias"@, seq![2304usize]),
        weight_layout()[12 * l + 4] == ("h."@ + decimal(l as nat) + "."@ + "attn.c_proj.weight"@, seq![768usize, 768usize]),
        weight_layout()[12 * l + 5] == ("h."@ + decimal(l as nat) + "."@ + "attn.c_proj.bias"@, seq![768usize]),
        weight_layout()[12 * l + 6] == ("h."@ + decimal(l as nat) + "."@ + "ln_2.weight"@, seq![768usize]),
        weight_layout()[12 * l + 7] == ("h."@ + decimal(l as nat) + "."@ + "ln_2.bias"@, seq![768usize]),
        weight_layout()[12 * l + 8] == ("h."@ + decimal(l as nat) + "."@ + "mlp.c_fc.weight"@, seq![768usize, 3072usize]),
        weight_layout()[12 * l + 9] == ("h."@ + decimal(l as nat) + "."@ + "mlp.c_fc.bias"@, seq![3072usize]),
        weight_layout()[12 * l + 10] == ("h."@ + decimal(l as nat) + "."@ + "mlp.c_proj.weight"@, seq![3072usize, 768usize]),
        weight_layout()[12 * l + 11] == ("h."@ + decimal(l as nat) + "."@ + "mlp.c_proj.bias"@, seq![768usize]),
        weight_layout()[144] == ("wte.weight"@, seq![50257usize, 768usize]),
        weight_layout()[145] == ("wpe.weight"@, seq![1024usize, 768usize]),
        weight_layout()[146] == ("ln_f.weight"@, seq![768usize]),
        weight_layout()[147] == ("ln_f.bias"@, seq![768usize]),
{
    reveal_with_fuel(decimal, 2);
    assert((12 * l + 0) / 12 == l && (12 * l + 0) % 12 == 0) by (nonlinear_arith)
        requires
            0 <= l < 12,
    ;
    assert((12 * l + 1) / 12 == l && (12 * l + 1) % 12 == 1) by (nonlinear_arith)
        requires
            0 <= l < 12,
    ;
    assert((12 * l + 2) / 12 == l && (12 * l + 2) % 12 == 2) by (nonlinear_arith)
        requires
            0 <= l < 12,
    ;
    assert((12 * l + 3) / 12 == l && (12 * l + 3) % 12 == 3) by (nonlinear_arith)
        requires
            0 <= l < 12,
    ;
    assert((12 * l + 4) / 12 == l && (12 * l + 4) % 12 == 4) by (nonlinear_arith)
        requires
            0 <= l < 12,
    ;
    assert((12 * l + 5) / 12 == l && (12 * l + 5) % 12 == 5) by (nonlinear_arith)
        requires
            0 <= l < 12,
    ;
    assert((12 * l + 6) / 12 == l && (12 * l + 6) % 12 == 6) by (nonlinear_arith)
        requires
            0 <= l < 12,
    ;
    assert((12 * l + 7) / 12 == l && (12 * l + 7) % 12 == 7) by (nonlinear_arith)
        requires
            0 <= l < 12,
    ;
    assert((12 * l + 8) / 12 == l && (12 * l + 8) % 12 == 8) by (nonlinear_arith)
        requires
            0 <= l < 12,
    ;
    assert((12 * l + 9) / 12 == l && (12 * l + 9) % 12 == 9) by (nonlinear_arith)
        requires
            0 <= l < 12,
    ;
    assert((12 * l + 10) / 12 == l && (12 * l + 10) % 12 == 10) by (nonlinear_arith)
        requires
            0 <= l < 12,
    ;
    assert((12 * l + 11) / 12 == l && (12 * l + 11) % 12 == 11) by (nonlinear_arith)
        requires
            0 <= l < 12,
    ;
}

/// The one-character text of digit `d`.
fn digit_text(d: usize) -> (r: &'static str)
    requires
        d < 10,
    ensures
        r@ == seq![digit_char(d as int)],
{
    proof {
        reveal_strlit("0");
        reveal_strlit("1");
        reveal_strlit("2");
        reveal_strlit("3");
        reveal_strlit("4");
        reveal_strlit("5");
        reveal_strlit("6");
        reveal_strlit("7");
        reveal_strlit("8");
        reveal_strlit("9");
    }
    let r = if d == 0 {
        "0"
    } else if d == 1 {
        "1"
    } else if d == 2 {
        "2"
    } else if d == 3 {
        "3"
    } else if d == 4 {
        "4"
    } else if d == 5 {
        "5"
    } else if d == 6 {
        "6"
    } else if d == 7 {
        "7"
    } else if d == 8 {
        "8"
    } else {
        "9"
    };
    assert(r@ =~= seq![digit_char(d as int)]);
    r
}

/// Appends `n` in decimal to `s`.
fn push_decimal(s: &mut String, n: usize)
    ensures
        final(s)@ == old(s)@ + decimal(n as nat),
    decreases n,
{
    if n >= 10 {
        push_decimal(s, n / 10);
    }
    s.append(digit_text(n % 10));
    assert(s@ =~= old(s)@ + decimal(n as nat));
}

/// The name and shape of part `j` of a block.
fn block_part_of(j: usize) -> (r: (&'static str, Vec<usize>))
    requires
        j < 12,
    ensures
        (r.0@, r.1@) == block_part(j as int),
{
    if j == 0 {
        ("ln_1.weight", vec![DIM])
    } else if j == 1 {
        ("ln_1.bias", vec![DIM])
    } else if j == 2 {
        ("attn.c_attn.weight", vec![DIM, 3 * DIM])
    } else if j == 3 {
        ("attn.c_attn.bias", vec![3 * DIM])
    } else if j == 4 {
        ("attn.c_proj.weight", vec![DIM, DIM])
    } else if j == 5 {
        ("attn.c_proj.bias", vec![DIM])
    } else if j == 6 {
        ("ln_2.weight", vec![DIM])
    } else if j == 7 {
        ("ln_2.bias", vec![DIM])
    } else if j == 8 {
        ("mlp.c_fc.weight", vec![DIM, MLP_DIM])
    } else if j == 9 {
        ("mlp.c_fc.bias", vec![MLP_DIM])
    } else if j == 10 {
        ("mlp.c_proj.weight", vec![MLP_DIM, DIM])
    } else {
        ("mlp.c_proj.bias", vec![DIM])
    }
}

/// The name and shape of tensor `j` outside the blocks.
fn global_part_of(j: usize) -> (r: (&'static str, Vec<usize>))
    requires
        j < 4,
    ensures
        (r.0@, r.1@) == global_part(j as int),
{
    if j == 0 {
        ("wte.weight", vec![VOCAB, DIM])
    } else if j == 1 {
        ("wpe.weight", vec![MAX_POS, DIM])
    } else if j == 2 {
        ("ln_f.weight", vec![DIM])
    } else {
        ("ln_f.bias", vec![DIM])
    }
}

/// Entry `i` of [`weight_layout`]: a tensor's name and shape.
pub fn weight_entry(i: usize) -> (r: (String, Vec<usize>))
    requires
        i < weight_layout().len(),
    ensures
        (r.0@, r.1@) == weight_layout()[i as int],
{
    if i < N_LAYER * 12 {
        let (suffix, shape) = block_part_of(i % 12);
        let mut name = "h.".to_owned();
        push_decimal(&mut name, i / 12);
        name.append(".");
        name.append(suffix);
        (name, shape)
    } else {
        let (name, shape) = global_part_of(i - N_LAYER * 12);
        (name.to_owned(), shape)
    }
}


/// Reads every tensor of [`weight_layout`] from `st`, in its order, each
/// checked against its shape. On success the i-th tensor is entry i of the
/// layout; otherwise the error is that of the first entry that cannot be
/// read, all entries before it being readable.
pub fn load_weights(st: &SafeTensors) -> (r: Result<Vec<RawTensor>, SafeTensorsError>)
    ensures
        (r is Ok) == (forall|i: int|
            0 <= i < weight_layout().len() ==> st.has_tensor(
                #[trigger] weight_layout()[i].0,
                weight_layout()[i].1,
            )),
        match r {
            Ok(ts) => {
                &&& ts@.len() == weight_layout().len()
                &&& forall|i: int|
                    0 <= i < ts@.len() ==> st.holds_tensor(
                        weight_layout()[i].0,
                        weight_layout()[i].1,
                        #[trigger] ts@[i],
                    )
            },
            Err(e) => exists|i: int|
                0 <= i < weight_layout().len() && (forall|j: int|
                    0 <= j < i ==> st.has_tensor(#[trigger] weight_layout()[j].0, weight_layout()[j].1))
                    && st.shape_error(weight_layout()[i].0, weight_layout()[i].1, e),
        },
{
    let n: usize = N_LAYER * 12 + 4;
    let ghost layout = weight_layout();
    let mut ts: Vec<RawTensor> = Vec::new();
    let mut i: usize = 0;
    while i < n
        invariant
            n == layout.len(),
            layout == weight_layout(),
            i <= n,
            ts@.len() == i,
            forall|j: int| 0 <= j < i ==> st.holds_tensor(layout[j].0, layout[j].1, #[trigger] ts@[j]),
        decreases n - i,
    {
        let (name, shape) = weight_entry(i);
        match st.tensor_with_shape(name.as_str(), shape.as_slice()) {
            Ok(t) => {
                ts.push(t);
            },
            Err(e) => {
                proof {
                    assert forall|j: int| 0 <= j < i implies st.has_tensor(
                        #[trigger] layout[j].0,
                        layout[j].1,
                    ) by {
                        assert(st.holds_tensor(layout[j].0, layout[j].1, ts@[j]));
                    }
                }
                proof {
                    if forall|j: int| 0 <= j < layout.len() ==> st.has_tensor(#[trigger] layout[j].0, layout[j].1) {
                        assert(st.has_tensor(layout[i as int].0, layout[i as int].1));
                    }
                }
                return Err(e);
            },
        }
        i = i + 1;
    }
    proof {
        assert forall|j: int| 0 <= j < layout.len() implies st.has_tensor(#[trigger] layout[j].0, layout[j].1) by {
            assert(st.holds_tensor(layout[j].0, layout[j].1, ts@[j]));
        }
    }
    Ok(ts)
}

} // verus!

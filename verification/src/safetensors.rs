//! The safetensors container: 8 bytes of little-endian header length, a JSON
//! header naming each tensor's dtype, shape and byte range, then the data.
//! This module frames the file, checks every header entry, and cuts a
//! tensor's bytes out of the data.

use vstd::prelude::*;

verus! {

/// The number a little-endian byte string stands for.
pub open spec fn le_value(bytes: Seq<u8>) -> int
    decreases bytes.len(),
{
    if bytes.len() == 0 {
        0
    } else {
        bytes[0] + 256 * le_value(bytes.drop_first())
    }
}

/// 256 to the power `n`.
pub open spec fn pow256(n: nat) -> int
    decreases n,
{
    if n == 0 {
        1
    } else {
        256 * pow256((n - 1) as nat)
    }
}

proof fn lemma_le_value_bound(bytes: Seq<u8>)
    ensures
        0 <= le_value(bytes) < pow256(bytes.len()),
    decreases bytes.len(),
{
    if bytes.len() > 0 {
        lemma_le_value_bound(bytes.drop_first());
        let r = le_value(bytes.drop_first());
        let p = pow256(bytes.drop_first().len());
        assert(bytes[0] + 256 * r < 256 * p) by (nonlinear_arith)
            requires
                0 <= bytes[0] < 256,
                0 <= r < p,
        ;
    }
}

/// Where the tensor data starts: after the 8 length bytes and the header
/// they announce; `None` when the file is shorter than that.
pub open spec fn header_end(file: Seq<u8>) -> Option<int> {
    if file.len() < 8 {
        None
    } else if 8 + le_value(file.take(8)) <= file.len() {
        Some(8 + le_value(file.take(8)))
    } else {
        None
    }
}

/// Why a safetensors file or tensor could not be read.
#[derive(Debug)]
pub enum SafeTensorsError {
    /// The file is shorter than its 8 length bytes.
    TooShort,
    /// The header runs past the end of the file.
    HeaderOutOfRange,
    /// A header entry is not a tensor description (serde_json's message).
    BadHeader(String),
    /// A tensor is not F32 or its byte range does not fit its shape.
    BadTensor(String),
    /// No tensor has this name.
    NotFound(String),
    /// A tensor's byte range runs past the end of the file.
    DataOutOfRange(String),
    /// A tensor does not have the shape the model expects: its name, the
    /// expected shape and the shape found.
    WrongShape(String, Vec<usize>, Vec<usize>),
}

/// The position where tensor data starts: 8 plus the little-endian header
/// length in the first 8 bytes, checked against the file's length.
pub fn header_range(file: &[u8]) -> (r: Result<usize, SafeTensorsError>)
    ensures
        match r {
            Ok(start) => header_end(file@) == Some(start as int),
            Err(SafeTensorsError::TooShort) => file@.len() < 8,
            Err(SafeTensorsError::HeaderOutOfRange) => file@.len() >= 8 && header_end(file@) is None,
            Err(_) => false,
        },
{
    if file.len() < 8 {
        return Err(SafeTensorsError::TooShort);
    }
    let ghost head = file@.take(8);
    let mut acc: u128 = 0;
    let mut i: usize = 8;
    proof {
        assert(head.subrange(8, 8) =~= Seq::<u8>::empty());
        assert(pow256(0) == 1);
        lemma_pow256_monotone(0, 8);
    }
    while i > 0
        invariant
            i <= 8,
            8 <= file@.len(),
            head == file@.take(8),
            acc == le_value(head.subrange(i as int, 8)),
            acc < pow256((8 - i) as nat),
            pow256((8 - i) as nat) <= pow256(8),
        decreases i,
    {
        i = i - 1;
        proof {
            let s = head.subrange(i as int, 8);
            assert(s.drop_first() == head.subrange(i + 1, 8));
            assert(s[0] == file@[i as int]);
            lemma_le_value_bound(s);
            assert(pow256(8) == 18446744073709551616) by {
                reveal_with_fuel(pow256, 9);
            }
        }
        acc = acc * 256 + file[i] as u128;
        proof {
            assert(pow256((8 - i) as nat) <= pow256(8)) by {
                lemma_pow256_monotone((8 - i) as nat, 8);
            }
        }
    }
    proof {
        assert(head.subrange(0, 8) == head);
    }
    let room = (file.len() - 8) as u128;
    if acc > room {
        return Err(SafeTensorsError::HeaderOutOfRange);
    }
    Ok(8 + acc as usize)
}

proof fn lemma_pow256_monotone(a: nat, b: nat)
    requires
        a <= b,
    ensures
        1 <= pow256(a) <= pow256(b),
    decreases b,
{
    if b > 0 {
        if a < b {
            lemma_pow256_monotone(a, (b - 1) as nat);
        } else {
            lemma_pow256_monotone((b - 1) as nat, (b - 1) as nat);
        }
    }
}


// ---------------------------------------------------------------------------
// Header entries
// ---------------------------------------------------------------------------

/// One entry of the header: where a tensor lives and what shape it has.
#[derive(Debug)]
pub struct TensorInfo {
    pub dtype: String,
    pub shape: Vec<usize>,
    pub data_offsets: [usize; 2],
}

/// The plain view of a [`TensorInfo`]; `start` and `end` are relative to
/// the start of the data.
pub struct TensorMeta {
    pub dtype: Seq<char>,
    pub shape: Seq<usize>,
    pub start: int,
    pub end: int,
}

impl View for TensorInfo {
    type V = TensorMeta;

    open spec fn view(&self) -> TensorMeta {
        TensorMeta {
            dtype: self.dtype@,
            shape: self.shape@,
            start: self.data_offsets@[0] as int,
            end: self.data_offsets@[1] as int,
        }
    }
}

/// The number of elements of a tensor of this shape.
pub open spec fn shape_product(shape: Seq<usize>) -> int
    decreases shape.len(),
{
    if shape.len() == 0 {
        1
    } else {
        shape_product(shape.drop_last()) * shape.last()
    }
}

/// The entry describes F32 data whose byte range holds exactly 4 bytes per
/// element of its shape.
pub open spec fn is_f32_tensor(m: TensorMeta) -> bool {
    &&& m.dtype == "F32"@
    &&& m.start <= m.end
    &&& m.end - m.start == shape_product(m.shape) * 4
}

/// The header key that holds free-form metadata rather than a tensor.
pub open spec fn metadata_key() -> Seq<char> {
    "__metadata__"@
}

/// Why the header entries were refused.
pub enum HeaderFault {
    BadHeader(Seq<char>),
    BadTensor(Seq<char>),
}

/// The tensors that the header entries describe, in entry order: the
/// metadata entry is skipped; the first entry that is no tensor description
/// (with the parser's message), or whose description fails
/// [`is_f32_tensor`], is the error.
pub open spec fn accept_entries(entries: Seq<(Seq<char>, Result<TensorMeta, Seq<char>>)>) -> Result<
    Seq<(Seq<char>, TensorMeta)>,
    HeaderFault,
>
    decreases entries.len(),
{
    if entries.len() == 0 {
        Ok(Seq::empty())
    } else {
        match accept_entries(entries.drop_last()) {
            Err(f) => Err(f),
            Ok(list) => {
                let (name, described) = entries.last();
                if name == metadata_key() {
                    Ok(list)
                } else {
                    match described {
                        Err(msg) => Err(HeaderFault::BadHeader(msg)),
                        Ok(m) => if is_f32_tensor(m) {
                            Ok(list.push((name, m)))
                        } else {
                            Err(HeaderFault::BadTensor(name))
                        },
                    }
                }
            },
        }
    }
}

/// Every header entry other than the metadata that describes F32 data
/// whose byte range holds exactly 4 bytes per element of its shape is
/// accepted, whatever the number of dimensions of the shape: the entries
/// are accepted, with as many tensors as there are such entries.
pub proof fn lemma_f32_entries_are_accepted(entries: Seq<(Seq<char>, Result<TensorMeta, Seq<char>>)>)
    requires
        forall|i: int|
            0 <= i < entries.len() && (#[trigger] entries[i]).0 != metadata_key() ==> (entries[i].1 matches Ok(
                m,
            ) && m.dtype == "F32"@ && m.start <= m.end && m.end - m.start == 4 * shape_product(m.shape)),
    ensures
        accept_entries(entries) is Ok,
        accept_entries(entries)->Ok_0.len() == entries.filter(
            |e: (Seq<char>, Result<TensorMeta, Seq<char>>)| e.0 != metadata_key(),
        ).len(),
    decreases entries.len(),
{
    let keep = |e: (Seq<char>, Result<TensorMeta, Seq<char>>)| e.0 != metadata_key();
    if entries.len() > 0 {
        let prev = entries.drop_last();
        assert forall|i: int|
            0 <= i < prev.len() && (#[trigger] prev[i]).0 != metadata_key() implies (prev[i].1 matches Ok(m)
                && m.dtype == "F32"@ && m.start <= m.end && m.end - m.start == 4 * shape_product(m.shape)) by {
            assert(prev[i] == entries[i]);
        }
        lemma_f32_entries_are_accepted(prev);
        assert(entries == prev.push(entries.last()));
        prev.lemma_filter_push(entries.last(), keep);
        let last = entries.last();
        assert(last == entries[entries.len() - 1]);
    } else {
        assert(entries.filter(keep) =~= Seq::empty());
    }
}

/// The plain view of header entries as the JSON parse handed them over.
pub open spec fn entries_view(entries: Seq<(String, Result<TensorInfo, String>)>) -> Seq<
    (Seq<char>, Result<TensorMeta, Seq<char>>),
> {
    entries.map_values(
        |e: (String, Result<TensorInfo, String>)|
            (
                e.0@,
                match e.1 {
                    Ok(i) => Ok(i@),
                    Err(m) => Err(m@),
                },
            ),
    )
}

proof fn lemma_product_zero(shape: Seq<usize>, k: int)
    requires
        0 <= k < shape.len(),
        shape[k] == 0,
    ensures
        shape_product(shape) == 0,
    decreases shape.len(),
{
    if k < shape.len() - 1 {
        assert(shape.drop_last()[k] == 0);
        lemma_product_zero(shape.drop_last(), k);
        assert(shape_product(shape) == 0 * shape.last());
    } else {
        assert(shape.last() == 0);
        assert(shape_product(shape) == shape_product(shape.drop_last()) * 0);
    }
}

proof fn lemma_product_grows(shape: Seq<usize>, n: int)
    requires
        0 <= n <= shape.len(),
        forall|j: int| 0 <= j < shape.len() ==> shape[j] >= 1,
    ensures
        1 <= shape_product(shape.take(n)) <= shape_product(shape),
    decreases shape.len() - n,
{
    lemma_product_grows_base(shape.take(n));
    if n < shape.len() {
        lemma_product_grows(shape, n + 1);
        let p = shape_product(shape.take(n));
        assert(shape.take(n + 1).drop_last() == shape.take(n));
        let d = shape[n] as int;
        assert(p <= p * d) by (nonlinear_arith)
            requires
                1 <= p,
                1 <= d,
        ;
        assert(shape.take(n + 1).last() == shape[n]);
    } else {
        assert(shape.take(n) == shape);
        lemma_product_grows_base(shape);
    }
}

proof fn lemma_product_grows_base(shape: Seq<usize>)
    requires
        forall|j: int| 0 <= j < shape.len() ==> shape[j] >= 1,
    ensures
        1 <= shape_product(shape),
    decreases shape.len(),
{
    if shape.len() > 0 {
        lemma_product_grows_base(shape.drop_last());
        let p = shape_product(shape.drop_last());
        let d = shape.last() as int;
        assert(1 <= p * d) by (nonlinear_arith)
            requires
                1 <= p,
                1 <= d,
        ;
    }
}

/// The number of elements of `shape`, or `None` when it exceeds `usize`.
fn element_count(shape: &Vec<usize>) -> (r: Option<usize>)
    ensures
        match r {
            Some(c) => c == shape_product(shape@),
            None => shape_product(shape@) > usize::MAX,
        },
{
    let mut k: usize = 0;
    while k < shape.len()
        invariant
            k <= shape.len(),
            forall|j: int| 0 <= j < k ==> shape@[j] >= 1,
        decreases shape.len() - k,
    {
        if shape[k] == 0 {
            proof {
                lemma_product_zero(shape@, k as int);
            }
            return Some(0);
        }
        k = k + 1;
    }
    let mut count: usize = 1;
    let mut i: usize = 0;
    proof {
        assert(shape@.take(0) =~= Seq::<usize>::empty());
    }
    while i < shape.len()
        invariant
            i <= shape.len(),
            forall|j: int| 0 <= j < shape.len() ==> shape@[j] >= 1,
            count == shape_product(shape@.take(i as int)),
        decreases shape.len() - i,
    {
        proof {
            assert(shape@.take(i + 1).drop_last() == shape@.take(i as int));
            assert(shape@.take(i + 1).last() == shape@[i as int]);
        }
        match count.checked_mul(shape[i]) {
            None => {
                proof {
                    lemma_product_grows(shape@, i + 1);
                }
                return None;
            },
            Some(c) => {
                count = c;
            },
        }
        i = i + 1;
    }
    proof {
        assert(shape@.take(shape.len() as int) == shape@);
    }
    Some(count)
}

/// Whether an entry describes F32 data of the right size.
fn check_tensor(info: &TensorInfo) -> (r: bool)
    ensures
        r == is_f32_tensor(info@),
{
    let f32_name = "F32".to_owned();
    if !(info.dtype == f32_name) {
        return false;
    }
    let start = info.data_offsets[0];
    let end = info.data_offsets[1];
    if end < start {
        return false;
    }
    match element_count(&info.shape) {
        None => false,
        Some(count) => match count.checked_mul(4) {
            None => false,
            Some(bytes) => end - start == bytes,
        },
    }
}

// ---------------------------------------------------------------------------
// The container
// ---------------------------------------------------------------------------

/// A tensor's shape and the little-endian bytes of its F32 values.
pub struct RawTensor {
    pub shape: Vec<usize>,
    pub bytes: Vec<u8>,
}

/// A safetensors file whose header has been checked.
pub struct SafeTensors {
    bytes: Vec<u8>,
    data_start: usize,
    /// accepted (name, description) entries in header order; a later entry
    /// with the same name replaces an earlier one
    tensors: Vec<(String, TensorInfo)>,
}

/// The tensor a name refers to: the last accepted entry with that name.
pub open spec fn is_last_named(list: Seq<(Seq<char>, TensorMeta)>, name: Seq<char>, i: int) -> bool {
    &&& 0 <= i < list.len()
    &&& list[i].0 == name
    &&& forall|j: int| i < j < list.len() ==> list[j].0 != name
}

/// The description of the tensor called `name`, if any.
pub open spec fn find_tensor(list: Seq<(Seq<char>, TensorMeta)>, name: Seq<char>) -> Option<
    TensorMeta,
> {
    if exists|i: int| is_last_named(list, name, i) {
        Some(list[choose|i: int| is_last_named(list, name, i)].1)
    } else {
        None
    }
}

/// The bytes of a tensor, if its range lies inside the file.
pub open spec fn tensor_bytes(file: Seq<u8>, data_start: int, m: TensorMeta) -> Option<Seq<u8>> {
    if 0 <= m.start <= m.end && data_start + m.end <= file.len() {
        Some(file.subrange(data_start + m.start, data_start + m.end))
    } else {
        None
    }
}

impl SafeTensors {
    /// The whole file.
    pub closed spec fn file(&self) -> Seq<u8> {
        self.bytes@
    }

    /// Where the tensor data starts.
    pub closed spec fn data_start(&self) -> int {
        self.data_start as int
    }

    /// The accepted tensors, in header order.
    pub closed spec fn tensor_list(&self) -> Seq<(Seq<char>, TensorMeta)> {
        self.tensors@.map_values(|e: (String, TensorInfo)| (e.0@, e.1@))
    }

    /// Every accepted tensor is F32 data of the right size.
    #[verifier::type_invariant]
    pub closed spec fn wf(&self) -> bool {
        &&& self.data_start <= self.bytes.len()
        &&& forall|i: int| 0 <= i < self.tensor_list().len() ==> is_f32_tensor(
            #[trigger] self.tensor_list()[i].1,
        )
    }

    /// Checks the header entries of a safetensors file and keeps the file:
    /// the file must frame its header (see [`header_range`]); each entry,
    /// in the order given, is skipped when it is the metadata entry, and
    /// otherwise must be an F32 tensor whose byte range holds 4 bytes per
    /// element of its shape.
    ///
    /// `entries` are the header's (name, description) pairs as the JSON
    /// parse gave them; a description that did not parse carries the
    /// parser's message.
    pub fn from_header(file: Vec<u8>, entries: Vec<(String, Result<TensorInfo, String>)>) -> (r:
        Result<SafeTensors, SafeTensorsError>)
        ensures
            match r {
                Ok(st) => {
                    &&& st.wf()
                    &&& st.file() == file@
                    &&& header_end(file@) == Some(st.data_start())
                    &&& accept_entries(entries_view(entries@)) == Ok::<_, HeaderFault>(
                        st.tensor_list(),
                    )
                },
                Err(SafeTensorsError::TooShort) => file@.len() < 8,
                Err(SafeTensorsError::HeaderOutOfRange) => file@.len() >= 8 && header_end(file@) is None,
                Err(SafeTensorsError::BadHeader(msg)) => {
                    &&& header_end(file@) is Some
                    &&& accept_entries(entries_view(entries@)) == Err::<
                        Seq<(Seq<char>, TensorMeta)>,
                        _,
                    >(HeaderFault::BadHeader(msg@))
                },
                Err(SafeTensorsError::BadTensor(name)) => {
                    &&& header_end(file@) is Some
                    &&& accept_entries(entries_view(entries@)) == Err::<
                        Seq<(Seq<char>, TensorMeta)>,
                        _,
                    >(HeaderFault::BadTensor(name@))
                },
                Err(_) => false,
            },
    {
        let data_start = header_range(file.as_slice())?;
        let ghost ev = entries_view(entries@);
        let metadata = "__metadata__".to_owned();
        let mut tensors: Vec<(String, TensorInfo)> = Vec::new();
        let ghost orig = entries@;
        let mut rest = entries;
        let ghost n = ev.len();
        proof {
            assert(ev.take(0) =~= Seq::empty());
            assert(orig.len() == n);
            assert(orig.skip(0) == orig);
            assert(tensors@.map_values(|e: (String, TensorInfo)| (e.0@, e.1@)) =~= Seq::empty());
        }
        #[verifier::loop_isolation(false)]
        while rest.len() > 0
            invariant
                ev.len() == n,
                rest.len() <= n,
                metadata@ == metadata_key(),
                ev == entries_view(orig),
                header_end(file@) == Some(data_start as int),
                data_start <= file.len(),
                rest@ == orig.skip(n - rest.len()),
                accept_entries(ev.take(n - rest.len())) == Ok::<_, HeaderFault>(
                    tensors@.map_values(|e: (String, TensorInfo)| (e.0@, e.1@)),
                ),
                forall|i: int| 0 <= i < tensors.len() ==> is_f32_tensor(#[trigger] tensors@[i].1@),
            decreases rest.len(),
        {
            let ghost k = n - rest.len();
            let (name, described) = rest.remove(0);
            proof {
                assert(orig[k] == (name, described));
                assert(ev.take(k + 1).drop_last() == ev.take(k));
                assert(ev.take(k + 1).last() == ev[k]);
            }
            if name == metadata {
                continue;
            }
            match described {
                Err(msg) => {
                    proof {
                        assert(ev[k].0 != metadata_key());
                        assert(ev[k].1 == Err::<TensorMeta, _>(msg@));
                        assert(accept_entries(ev.take(k + 1)) == Err::<Seq<(Seq<char>, TensorMeta)>, _>(
                            HeaderFault::BadHeader(msg@),
                        ));
                        lemma_accept_error_sticks(ev, k + 1);
                    }
                    return Err(SafeTensorsError::BadHeader(msg));
                },
                Ok(info) => {
                    if !check_tensor(&info) {
                        proof {
                            assert(ev[k].0 != metadata_key());
                            assert(ev[k].1 == Ok::<_, Seq<char>>(info@));
                            assert(accept_entries(ev.take(k + 1)) == Err::<Seq<(Seq<char>, TensorMeta)>, _>(
                                HeaderFault::BadTensor(name@),
                            ));
                            lemma_accept_error_sticks(ev, k + 1);
                        }
                        return Err(SafeTensorsError::BadTensor(name));
                    }
                    let ghost prev = tensors@;
                    tensors.push((name, info));
                    proof {
                        assert(tensors@.map_values(|e: (String, TensorInfo)| (e.0@, e.1@)) =~= prev.map_values(
                            |e: (String, TensorInfo)| (e.0@, e.1@),
                        ).push((ev[k].0, ev[k].1->Ok_0)));
                    }
                },
            }
        }
        proof {
            assert(ev.take(n as int) == ev);
        }
        Ok(SafeTensors { bytes: file, data_start, tensors })
    }
}

impl SafeTensors {
    /// Every accepted tensor is F32 data whose byte range holds 4 bytes per
    /// element of its shape.
    pub proof fn lemma_tensors_are_f32(&self)
        requires
            self.wf(),
        ensures
            forall|i: int|
                0 <= i < self.tensor_list().len() ==> 0 <= (#[trigger] self.tensor_list()[i]).1.start
                    && is_f32_tensor(self.tensor_list()[i].1),
    {
    }

    /// The accepted (name, description) entries, in header order.
    pub fn tensors(&self) -> (r: &Vec<(String, TensorInfo)>)
        ensures
            r@.map_values(|e: (String, TensorInfo)| (e.0@, e.1@)) == self.tensor_list(),
    {
        &self.tensors
    }

    /// The shape and bytes of the tensor called `name`: the bytes between
    /// its offsets, counted from the start of the data.
    pub fn tensor(&self, name: &str) -> (r: Result<RawTensor, SafeTensorsError>)
        ensures
            find_tensor(self.tensor_list(), name@) matches Some(m) ==> 0 <= m.start && is_f32_tensor(m),
            match r {
                Ok(t) => find_tensor(self.tensor_list(), name@) matches Some(m) && {
                    &&& t.shape@ == m.shape
                    &&& tensor_bytes(self.file(), self.data_start(), m) == Some(t.bytes@)
                    &&& t.bytes@.len() == shape_product(t.shape@) * 4
                },
                Err(SafeTensorsError::NotFound(n)) => {
                    &&& n@ == name@
                    &&& find_tensor(self.tensor_list(), name@) is None
                },
                Err(SafeTensorsError::DataOutOfRange(n)) => {
                    &&& n@ == name@
                    &&& find_tensor(self.tensor_list(), name@) matches Some(m) && tensor_bytes(
                        self.file(),
                        self.data_start(),
                        m,
                    ) is None
                },
                Err(_) => false,
            },
    {
        proof {
            use_type_invariant(self);
        }
        let wanted = name.to_owned();
        let ghost list = self.tensor_list();
        let mut i = self.tensors.len();
        while i > 0
            invariant
                i <= self.tensors.len(),
                list == self.tensor_list(),
                list.len() == self.tensors.len(),
                self.wf(),
                wanted@ == name@,
                forall|j: int| i <= j < list.len() ==> (#[trigger] list[j]).0 != name@,
            decreases i,
        {
            i = i - 1;
            if self.tensors[i].0 == wanted {
                let info = &self.tensors[i].1;
                proof {
                    assert(list[i as int].0 == name@);
                    assert(is_last_named(list, name@, i as int));
                    let k = choose|k: int| is_last_named(list, name@, k);
                    if k < i {
                        assert(list[i as int].0 != name@);
                    } else if k > i {
                        assert(list[k].0 == name@);
                    }
                    assert(list[i as int].1 == info@);
                    assert(is_f32_tensor(list[i as int].1));
                }
                let start = info.data_offsets[0];
                let end = info.data_offsets[1];
                if end > self.bytes.len() || self.data_start > self.bytes.len() - end {
                    return Err(SafeTensorsError::DataOutOfRange(wanted));
                }
                let lo = self.data_start + start;
                let hi = self.data_start + end;
                let mut bytes: Vec<u8> = Vec::new();
                let mut p = lo;
                while p < hi
                    invariant
                        lo <= p <= hi <= self.bytes.len(),
                        bytes@ == self.bytes@.subrange(lo as int, p as int),
                    decreases hi - p,
                {
                    bytes.push(self.bytes[p]);
                    p = p + 1;
                }
                let mut shape: Vec<usize> = Vec::new();
                let mut q: usize = 0;
                while q < info.shape.len()
                    invariant
                        q <= info.shape.len(),
                        shape@ == info.shape@.take(q as int),
                    decreases info.shape.len() - q,
                {
                    shape.push(info.shape[q]);
                    q = q + 1;
                }
                proof {
                    assert(info.shape@.take(info.shape.len() as int) == info.shape@);
                }
                return Ok(RawTensor { shape, bytes });
            }
        }
        proof {
            if exists|k: int| is_last_named(list, name@, k) {
                let k = choose|k: int| is_last_named(list, name@, k);
                assert(list[k].0 == name@);
            }
        }
        Err(SafeTensorsError::NotFound(wanted))
    }
}

/// Whether two shapes are equal.
fn same_shape(a: &[usize], b: &[usize]) -> (r: bool)
    ensures
        r == (a@ == b@),
{
    if a.len() != b.len() {
        return false;
    }
    let mut i: usize = 0;
    while i < a.len()
        invariant
            a.len() == b.len(),
            i <= a.len(),
            forall|j: int| 0 <= j < i ==> a@[j] == b@[j],
        decreases a.len() - i,
    {
        if a[i] != b[i] {
            return false;
        }
        i = i + 1;
    }
    assert(a@ =~= b@);
    true
}

impl SafeTensors {
    /// `t` is the tensor called `name`, found with shape `shape`: its shape
    /// and the bytes between its offsets.
    pub open spec fn holds_tensor(&self, name: Seq<char>, shape: Seq<usize>, t: RawTensor) -> bool {
        find_tensor(self.tensor_list(), name) matches Some(m) && {
            &&& m.shape == shape
            &&& t.shape@ == shape
            &&& tensor_bytes(self.file(), self.data_start(), m) == Some(t.bytes@)
            &&& t.bytes@.len() == shape_product(shape) * 4
        }
    }

    /// A tensor called `name` with shape `shape` can be read.
    pub open spec fn has_tensor(&self, name: Seq<char>, shape: Seq<usize>) -> bool {
        find_tensor(self.tensor_list(), name) matches Some(m) && {
            &&& m.shape == shape
            &&& tensor_bytes(self.file(), self.data_start(), m) is Some
        }
    }

    /// `e` is what asking for `name` with shape `shape` fails with: the name
    /// is missing, its bytes lie outside the file, or its shape differs.
    pub open spec fn shape_error(&self, name: Seq<char>, shape: Seq<usize>, e: SafeTensorsError) -> bool {
        match e {
            SafeTensorsError::NotFound(n) => {
                &&& n@ == name
                &&& find_tensor(self.tensor_list(), name) is None
            },
            SafeTensorsError::DataOutOfRange(n) => {
                &&& n@ == name
                &&& find_tensor(self.tensor_list(), name) matches Some(m) && tensor_bytes(
                    self.file(),
                    self.data_start(),
                    m,
                ) is None
            },
            SafeTensorsError::WrongShape(n, want, got) => {
                &&& n@ == name
                &&& want@ == shape
                &&& find_tensor(self.tensor_list(), name) matches Some(m) && {
                    &&& tensor_bytes(self.file(), self.data_start(), m) is Some
                    &&& m.shape == got@
                    &&& got@ != shape
                }
            },
            _ => false,
        }
    }

    /// The tensor called `name`, which must have shape `shape`.
    pub fn tensor_with_shape(&self, name: &str, shape: &[usize]) -> (r: Result<
        RawTensor,
        SafeTensorsError,
    >)
        ensures
            match r {
                Ok(t) => self.holds_tensor(name@, shape@, t),
                Err(e) => self.shape_error(name@, shape@, e),
            },
    {
        proof {
            use_type_invariant(self);
        }
        let t = self.tensor(name)?;
        if !same_shape(t.shape.as_slice(), shape) {
            let mut want: Vec<usize> = Vec::new();
            let mut i: usize = 0;
            while i < shape.len()
                invariant
                    i <= shape.len(),
                    want@ == shape@.take(i as int),
                decreases shape.len() - i,
            {
                want.push(shape[i]);
                i = i + 1;
            }
            proof {
                assert(shape@.take(shape.len() as int) == shape@);
            }
            return Err(SafeTensorsError::WrongShape(name.to_owned(), want, t.shape));
        }
        Ok(t)
    }
}

/// Once a prefix of the entries fails, all entries fail the same way.
proof fn lemma_accept_error_sticks(entries: Seq<(Seq<char>, Result<TensorMeta, Seq<char>>)>, n: int)
    requires
        0 <= n <= entries.len(),
        accept_entries(entries.take(n)) is Err,
    ensures
        accept_entries(entries) == accept_entries(entries.take(n)),
    decreases entries.len() - n,
{
    if n < entries.len() {
        assert(entries.take(n + 1).drop_last() == entries.take(n));
        lemma_accept_error_sticks(entries, n + 1);
    } else {
        assert(entries.take(n) == entries);
    }
}

} // verus!

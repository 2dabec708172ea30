//! What a GGUF file says about itself: its metadata and the tensors that it holds.
use crate::graph::FloatSetting;
use crate::text;
use vstd::prelude::*;

verus! {

/// A metadata value. Floating-point numbers are given by their bits, arrays without their items.
#[derive(Debug)]
pub enum MetaValue {
    U8(u8),
    I8(i8),
    U16(u16),
    I16(i16),
    U32(u32),
    I32(i32),
    U64(u64),
    I64(i64),
    F32(u32),
    F64(u64),
    Bool(bool),
    Text(String),
    Array,
}

/// A metadata entry.
#[derive(Debug)]
pub struct Entry {
    pub key: String,
    pub value: MetaValue,
}

/// The name and the dimensions of a tensor.
#[derive(Debug)]
pub struct TensorInfo {
    pub name: String,
    pub dims: Vec<usize>,
}

/// What stands in a file before the tensors themselves.
#[derive(Debug)]
pub struct Content {
    pub metadata: Vec<Entry>,
    pub tensors: Vec<TensorInfo>,
}

impl MetaValue {
    /// The value as a non-negative integer: any unsigned integer, or a truth value.
    pub open spec fn unsigned(self) -> Option<u64> {
        match self {
            MetaValue::U64(v) => Some(v),
            MetaValue::U8(v) => Some(v as u64),
            MetaValue::U16(v) => Some(v as u64),
            MetaValue::U32(v) => Some(v as u64),
            MetaValue::Bool(v) => Some(
                if v {
                    1
                } else {
                    0
                },
            ),
            _ => None,
        }
    }

    /// The value as text.
    pub open spec fn text(self) -> Option<Seq<char>> {
        match self {
            MetaValue::Text(v) => Some(v@),
            _ => None,
        }
    }

    /// The value as a floating-point setting.
    pub open spec fn float(self) -> FloatSetting {
        match self {
            MetaValue::F64(v) => FloatSetting::Double(v),
            MetaValue::F32(v) => FloatSetting::Single(v),
            _ => FloatSetting::Default,
        }
    }

    /// The value as a non-negative integer.
    pub fn as_u64(&self) -> (r: Option<u64>)
        ensures
            r == self.unsigned(),
    {
        match self {
            MetaValue::U64(v) => Some(*v),
            MetaValue::U8(v) => Some(*v as u64),
            MetaValue::U16(v) => Some(*v as u64),
            MetaValue::U32(v) => Some(*v as u64),
            MetaValue::Bool(v) => if *v {
                Some(1)
            } else {
                Some(0)
            },
            _ => None,
        }
    }

    /// The value as text.
    pub fn as_string(&self) -> (r: Option<String>)
        ensures
            match self.text() {
                Some(t) => r matches Some(found) && found@ == t,
                None => r is None,
            },
    {
        match self {
            MetaValue::Text(v) => Some(v.as_str().to_owned()),
            _ => None,
        }
    }

    /// The value as a floating-point setting.
    pub fn as_f64(&self) -> (r: FloatSetting)
        ensures
            r == self.float(),
    {
        match self {
            MetaValue::F64(v) => FloatSetting::Double(*v),
            MetaValue::F32(v) => FloatSetting::Single(*v),
            _ => FloatSetting::Default,
        }
    }
}

/// The value of a key.
pub open spec fn value_of(metadata: Seq<Entry>, key: Seq<char>) -> Option<MetaValue>
    decreases metadata.len(),
{
    if metadata.len() == 0 {
        None
    } else if metadata[0].key@ == key {
        Some(metadata[0].value)
    } else {
        value_of(metadata.drop_first(), key)
    }
}

/// The dimensions of a tensor.
pub open spec fn dims_of(tensors: Seq<TensorInfo>, name: Seq<char>) -> Option<Seq<usize>>
    decreases tensors.len(),
{
    if tensors.len() == 0 {
        None
    } else if tensors[0].name@ == name {
        Some(tensors[0].dims@)
    } else {
        dims_of(tensors.drop_first(), name)
    }
}

/// The first of the names that a tensor has.
pub open spec fn first_existing(tensors: Seq<TensorInfo>, names: Seq<Seq<char>>) -> Option<
    Seq<char>,
>
    decreases names.len(),
{
    if names.len() == 0 {
        None
    } else if dims_of(tensors, names[0]) is Some {
        Some(names[0])
    } else {
        first_existing(tensors, names.drop_first())
    }
}

/// What precedes `suffix` in the first key that ends with it.
pub open spec fn first_before(metadata: Seq<Entry>, suffix: Seq<char>) -> Option<Seq<char>>
    decreases metadata.len(),
{
    if metadata.len() == 0 {
        None
    } else if suffix.is_suffix_of(metadata[0].key@) {
        Some(metadata[0].key@.take(metadata[0].key@.len() - suffix.len()))
    } else {
        first_before(metadata.drop_first(), suffix)
    }
}

/// The value of a key.
pub fn lookup<'a>(metadata: &'a Vec<Entry>, key: &str) -> (r: Option<&'a MetaValue>)
    ensures
        match value_of(metadata@, key@) {
            Some(v) => r matches Some(found) && *found == v,
            None => r is None,
        },
{
    let mut i: usize = 0;
    assert(metadata@.skip(0) =~= metadata@);
    while i < metadata.len()
        invariant
            0 <= i <= metadata@.len(),
            value_of(metadata@, key@) == value_of(metadata@.skip(i as int), key@),
        decreases metadata@.len() - i,
    {
        assert(metadata@.skip(i as int).drop_first() =~= metadata@.skip(i + 1));
        if text::same_text(metadata[i].key.as_str(), key) {
            return Some(&metadata[i].value);
        }
        i = i + 1;
    }
    None
}

/// The dimensions of a tensor.
pub fn tensor_dims<'a>(tensors: &'a Vec<TensorInfo>, name: &str) -> (r: Option<&'a Vec<usize>>)
    ensures
        match dims_of(tensors@, name@) {
            Some(d) => r matches Some(found) && found@ == d,
            None => r is None,
        },
{
    let mut i: usize = 0;
    assert(tensors@.skip(0) =~= tensors@);
    while i < tensors.len()
        invariant
            0 <= i <= tensors@.len(),
            dims_of(tensors@, name@) == dims_of(tensors@.skip(i as int), name@),
        decreases tensors@.len() - i,
    {
        assert(tensors@.skip(i as int).drop_first() =~= tensors@.skip(i + 1));
        if text::same_text(tensors[i].name.as_str(), name) {
            return Some(&tensors[i].dims);
        }
        i = i + 1;
    }
    None
}

/// The first of the candidates that a tensor is named.
pub fn first_existing_tensor(tensors: &Vec<TensorInfo>, candidates: &Vec<String>) -> (r: Option<
    String,
>)
    ensures
        match first_existing(tensors@, text::views(candidates@)) {
            Some(name) => r matches Some(found) && found@ == name,
            None => r is None,
        },
{
    let ghost all = text::views(candidates@);
    let mut i: usize = 0;
    assert(all.skip(0) =~= all);
    while i < candidates.len()
        invariant
            0 <= i <= candidates@.len(),
            all == text::views(candidates@),
            first_existing(tensors@, all) == first_existing(tensors@, all.skip(i as int)),
        decreases candidates@.len() - i,
    {
        assert(all.skip(i as int).drop_first() =~= all.skip(i + 1));
        if tensor_dims(tensors, candidates[i].as_str()).is_some() {
            return Some(candidates[i].as_str().to_owned());
        }
        i = i + 1;
    }
    None
}

/// None of the candidates names a tensor.
#[derive(Debug)]
pub struct MissingTensor {
    pub candidates: Vec<String>,
}

impl MissingTensor {
    /// The candidates, in words.
    pub fn message(&self) -> (r: String)
        ensures
            r@ == "missing tensor; tried candidates: "@ + text::joined(
                text::views(self.candidates@),
                ", "@,
            ),
    {
        let list = text::join(&self.candidates, ", ");
        text::concat("missing tensor; tried candidates: ", list.as_str())
    }
}

/// The first of the candidates that a tensor is named, or an error that lists them.
pub fn require_tensor(tensors: &Vec<TensorInfo>, candidates: Vec<String>) -> (r: Result<
    String,
    MissingTensor,
>)
    ensures
        match first_existing(tensors@, text::views(candidates@)) {
            Some(name) => r matches Ok(found) && found@ == name,
            None => r matches Err(e) && e.candidates@ == candidates@,
        },
{
    match first_existing_tensor(tensors, &candidates) {
        Some(name) => Ok(name),
        None => Err(MissingTensor { candidates }),
    }
}

/// What precedes `suffix` in the first key that ends with it.
pub fn first_key_before(metadata: &Vec<Entry>, suffix: &str) -> (r: Option<String>)
    ensures
        match first_before(metadata@, suffix@) {
            Some(p) => r matches Some(found) && found@ == p,
            None => r is None,
        },
{
    let mut i: usize = 0;
    assert(metadata@.skip(0) =~= metadata@);
    while i < metadata.len()
        invariant
            0 <= i <= metadata@.len(),
            first_before(metadata@, suffix@) == first_before(metadata@.skip(i as int), suffix@),
        decreases metadata@.len() - i,
    {
        assert(metadata@.skip(i as int).drop_first() =~= metadata@.skip(i + 1));
        if let Some(before) = text::without_suffix(metadata[i].key.as_str(), suffix) {
            let ghost key = metadata@[i as int].key@;
            assert(key.take(key.len() - suffix@.len()) =~= before@);
            return Some(before.to_owned());
        }
        i = i + 1;
    }
    None
}

/// Keys that stand once have the same value wherever they stand.
pub proof fn lookup_ignores_order(a: Seq<Entry>, b: Seq<Entry>, key: Seq<char>)
    requires
        a.to_multiset() == b.to_multiset(),
        distinct_keys(a),
    ensures
        value_of(a, key) == value_of(b, key),
{
    broadcast use vstd::seq_lib::group_to_multiset_ensures;

    lemma_value_of(a, key);
    lemma_value_of(b, key);
    if value_of(b, key) is Some {
        let j = choose|j: int| 0 <= j < b.len() && #[trigger] b[j].key@ == key && Some(b[j].value)
            == value_of(b, key);
        assert(b.contains(b[j]));
        assert(a.to_multiset().count(b[j]) > 0);
        assert(a.contains(b[j]));
        let i = choose|i: int| 0 <= i < a.len() && a[i] == b[j];
        assert(a[i].key@ == key);
    }
    if value_of(a, key) is Some {
        let i = choose|i: int| 0 <= i < a.len() && #[trigger] a[i].key@ == key && Some(a[i].value)
            == value_of(a, key);
        assert(a.contains(a[i]));
        assert(b.to_multiset().count(a[i]) > 0);
        assert(b.contains(a[i]));
        let j = choose|j: int| 0 <= j < b.len() && b[j] == a[i];
        assert(b[j].key@ == key);
    }
}

/// Tensors whose names stand once have the same dimensions wherever they stand.
pub proof fn dims_ignore_order(a: Seq<TensorInfo>, b: Seq<TensorInfo>, name: Seq<char>)
    requires
        a.to_multiset() == b.to_multiset(),
        distinct_names(a),
    ensures
        dims_of(a, name) == dims_of(b, name),
{
    broadcast use vstd::seq_lib::group_to_multiset_ensures;

    lemma_dims_of(a, name);
    lemma_dims_of(b, name);
    if dims_of(b, name) is Some {
        let j = choose|j: int|
            0 <= j < b.len() && #[trigger] b[j].name@ == name && Some(b[j].dims@) == dims_of(
                b,
                name,
            );
        assert(b.contains(b[j]));
        assert(a.to_multiset().count(b[j]) > 0);
        assert(a.contains(b[j]));
        let i = choose|i: int| 0 <= i < a.len() && a[i] == b[j];
        assert(a[i].name@ == name);
    }
    if dims_of(a, name) is Some {
        let i = choose|i: int|
            0 <= i < a.len() && #[trigger] a[i].name@ == name && Some(a[i].dims@) == dims_of(
                a,
                name,
            );
        assert(a.contains(a[i]));
        assert(b.to_multiset().count(a[i]) > 0);
        assert(b.contains(a[i]));
        let j = choose|j: int| 0 <= j < b.len() && b[j] == a[i];
        assert(b[j].name@ == name);
    }
}

/// No tensor stands twice.
pub open spec fn distinct_names(tensors: Seq<TensorInfo>) -> bool {
    forall|i: int, j: int|
        0 <= i < j < tensors.len() ==> #[trigger] tensors[i].name@ != #[trigger] tensors[j].name@
}

/// Dimensions that are found are those of a tensor with the name; if none are found, no tensor has
/// it.
pub proof fn lemma_dims_of(tensors: Seq<TensorInfo>, name: Seq<char>)
    ensures
        match dims_of(tensors, name) {
            Some(dims) => exists|i: int|
                0 <= i < tensors.len() && #[trigger] tensors[i].name@ == name && tensors[i].dims@
                    == dims,
            None => forall|i: int| 0 <= i < tensors.len() ==> #[trigger] tensors[i].name@ != name,
        },
    decreases tensors.len(),
{
    if tensors.len() > 0 && tensors[0].name@ != name {
        let rest = tensors.drop_first();
        lemma_dims_of(rest, name);
        if dims_of(rest, name) is Some {
            let i = choose|i: int|
                0 <= i < rest.len() && #[trigger] rest[i].name@ == name && Some(rest[i].dims@)
                    == dims_of(rest, name);
            assert(tensors[i + 1].name@ == name);
        } else {
            assert forall|i: int| 0 <= i < tensors.len() implies #[trigger] tensors[i].name@
                != name by {
                if i > 0 {
                    assert(rest[i - 1].name@ != name);
                }
            }
        }
    }
}

/// No key stands twice.
pub open spec fn distinct_keys(metadata: Seq<Entry>) -> bool {
    forall|i: int, j: int|
        0 <= i < j < metadata.len() ==> #[trigger] metadata[i].key@ != #[trigger] metadata[j].key@
}

/// A value that is found is that of an entry with the key; if none is found, no entry has it.
pub proof fn lemma_value_of(metadata: Seq<Entry>, key: Seq<char>)
    ensures
        match value_of(metadata, key) {
            Some(v) => exists|i: int|
                0 <= i < metadata.len() && #[trigger] metadata[i].key@ == key && metadata[i].value
                    == v,
            None => forall|i: int| 0 <= i < metadata.len() ==> #[trigger] metadata[i].key@ != key,
        },
    decreases metadata.len(),
{
    if metadata.len() > 0 && metadata[0].key@ != key {
        let rest = metadata.drop_first();
        lemma_value_of(rest, key);
        if value_of(rest, key) is Some {
            let i = choose|i: int|
                0 <= i < rest.len() && #[trigger] rest[i].key@ == key && Some(rest[i].value)
                    == value_of(rest, key);
            assert(metadata[i + 1].key@ == key);
        } else {
            assert forall|i: int| 0 <= i < metadata.len() implies #[trigger] metadata[i].key@
                != key by {
                if i > 0 {
                    assert(rest[i - 1].key@ != key);
                }
            }
        }
    }
}

/// The number of the unknown tensor format that a reader's error message names.
pub open spec fn unknown_dtype(message: Seq<char>) -> Option<nat> {
    let marker = "unknown dtype for tensor "@;
    match text::find(message, marker) {
        Some(i) => match text::first_word(message.skip(i + marker.len())) {
            Some(word) => text::parsed(word, u32::MAX as nat),
            None => None,
        },
        None => None,
    }
}

/// The number of the unknown tensor format that a reader's error message names.
pub fn parse_unknown_gguf_dtype(message: &str) -> (r: Option<u32>)
    ensures
        match unknown_dtype(message@) {
            Some(n) => r == Some(n as u32) && n <= u32::MAX,
            None => r is None,
        },
{
    let marker = "unknown dtype for tensor ";
    match text::find_text(message, marker) {
        Some(index) => {
            let end: usize = message.unicode_len();
            let rest = message.substring_char(index + marker.unicode_len(), end);
            assert(rest@ =~= message@.skip(index + marker@.len()));
            match text::word(rest) {
                Some(word) => match text::parse_number(word, 4294967295) {
                    Some(n) => Some(n as u32),
                    None => None,
                },
                None => None,
            }
        },
        None => None,
    }
}

/// The name of a tensor format that the reader does not know.
pub open spec fn format_name(dtype: u32) -> Option<Seq<char>> {
    match dtype {
        16 => Some("IQ2_XXS"@),
        17 => Some("IQ2_XS"@),
        18 => Some("IQ3_XXS"@),
        19 => Some("IQ1_S"@),
        20 => Some("IQ4_NL"@),
        21 => Some("IQ3_S"@),
        22 => Some("IQ2_S"@),
        23 => Some("IQ4_XS"@),
        24 => Some("I8"@),
        25 => Some("I16"@),
        26 => Some("I32"@),
        27 => Some("I64"@),
        28 => Some("F64"@),
        29 => Some("IQ1_M"@),
        30 => Some("BF16"@),
        _ => None,
    }
}

/// The name of a tensor format that the reader does not know.
pub fn ggml_dtype_name(dtype: u32) -> (r: Option<&'static str>)
    ensures
        match format_name(dtype) {
            Some(name) => r matches Some(found) && found@ == name,
            None => r is None,
        },
{
    match dtype {
        16 => Some("IQ2_XXS"),
        17 => Some("IQ2_XS"),
        18 => Some("IQ3_XXS"),
        19 => Some("IQ1_S"),
        20 => Some("IQ4_NL"),
        21 => Some("IQ3_S"),
        22 => Some("IQ2_S"),
        23 => Some("IQ4_XS"),
        24 => Some("I8"),
        25 => Some("I16"),
        26 => Some("I32"),
        27 => Some("I64"),
        28 => Some("F64"),
        29 => Some("IQ1_M"),
        30 => Some("BF16"),
        _ => None,
    }
}

/// What to say of a file whose tensors have an unknown format.
pub open spec fn annotation(path: Seq<char>, dtype: nat) -> Seq<char> {
    let name = match format_name(dtype as u32) {
        Some(name) => name,
        None => "unknown/newer ggml dtype"@,
    };
    "gguf file "@ + path + " uses unsupported ggml dtype "@ + text::decimal(dtype) + " ("@ + name
        + "). supported candle-core 0.9.2 dtypes: F32, F16, BF16, Q4_0, Q4_1, Q5_0, Q5_1, Q8_0, Q8_1, Q2_K, Q3_K, Q4_K, Q5_K, Q6_K, Q8_K"@
}

/// A better message for a reader's error, where the error names an unknown tensor format.
pub fn annotate_gguf_read_error(message: &str, path: &str) -> (r: Option<String>)
    ensures
        match unknown_dtype(message@) {
            Some(n) => r matches Some(text) && text@ == annotation(path@, n),
            None => r is None,
        },
{
    match parse_unknown_gguf_dtype(message) {
        Some(dtype) => {
            let name = match ggml_dtype_name(dtype) {
                Some(name) => name,
                None => "unknown/newer ggml dtype",
            };
            let mut r = text::concat("gguf file ", path);
            r.append(" uses unsupported ggml dtype ");
            text::push_decimal(&mut r, dtype as u64);
            r.append(" (");
            r.append(name);
            r.append(
                "). supported candle-core 0.9.2 dtypes: F32, F16, BF16, Q4_0, Q4_1, Q5_0, Q5_1, Q8_0, Q8_1, Q2_K, Q3_K, Q4_K, Q5_K, Q6_K, Q8_K",
            );
            Some(r)
        },
        None => None,
    }
}

/// The candidate that is taken is the first one that a tensor of the file is named; without such a
/// candidate none is.
pub proof fn first_candidate_held_is_taken(
    tensors: Seq<TensorInfo>,
    names: Seq<Seq<char>>,
    k: int,
    i: int,
)
    requires
        0 <= k <= names.len(),
        forall|j: int, t: int|
            0 <= j < k && 0 <= t < tensors.len() ==> #[trigger] tensors[t].name@
                != #[trigger] names[j],
        k < names.len() ==> 0 <= i < tensors.len() && tensors[i].name@ == names[k],
    ensures
        k < names.len() ==> first_existing(tensors, names) == Some(names[k]),
        k == names.len() ==> first_existing(tensors, names) is None,
    decreases names.len(),
{
    if names.len() > 0 {
        lemma_dims_of(tensors, names[0]);
        if k == 0 {
            assert(tensors[i].name@ == names[0]);
        } else {
            let rest = names.drop_first();
            assert forall|j: int, t: int|
                0 <= j < k - 1 && 0 <= t < tensors.len() implies #[trigger] tensors[t].name@
                != #[trigger] rest[j] by {
                assert(tensors[t].name@ != names[j + 1]);
            }
            if dims_of(tensors, names[0]) is Some {
                let t = choose|t: int|
                    0 <= t < tensors.len() && #[trigger] tensors[t].name@ == names[0]
                        && tensors[t].dims@ == dims_of(tensors, names[0])->0;
                assert(tensors[t].name@ != names[0]);
            }
            first_candidate_held_is_taken(tensors, rest, k - 1, i);
        }
    }
}

/// The text that is taken is what stands before the ending in the first key that has it; without
/// such a key none is.
pub proof fn first_key_with_an_ending_is_taken(
    metadata: Seq<Entry>,
    before: Seq<char>,
    suffix: Seq<char>,
    k: int,
)
    requires
        0 <= k <= metadata.len(),
        forall|j: int| 0 <= j < k ==> !suffix.is_suffix_of(#[trigger] metadata[j].key@),
        k < metadata.len() ==> metadata[k].key@ == before + suffix,
    ensures
        k < metadata.len() ==> first_before(metadata, suffix) == Some(before),
        k == metadata.len() ==> first_before(metadata, suffix) is None,
    decreases metadata.len(),
{
    if metadata.len() > 0 {
        if k == 0 {
            let key = metadata[0].key@;
            assert(key.skip(key.len() - suffix.len()) =~= suffix);
            assert(suffix.is_suffix_of(key));
            assert(key.take(key.len() - suffix.len()) =~= before);
        } else {
            let rest = metadata.drop_first();
            assert(!suffix.is_suffix_of(metadata[0].key@));
            assert forall|j: int| 0 <= j < k - 1 implies !suffix.is_suffix_of(
                #[trigger] rest[j].key@,
            ) by {
                assert(rest[j] == metadata[j + 1]);
            }
            first_key_with_an_ending_is_taken(rest, before, suffix, k - 1);
        }
    }
}

/// The value of a key is that of its first entry, and the dimensions of a tensor those of the first
/// tensor of its name.
pub proof fn first_entry_counts(metadata: Seq<Entry>, tensors: Seq<TensorInfo>, k: int)
    ensures
        0 <= k < metadata.len() && (forall|j: int|
            0 <= j < k ==> #[trigger] metadata[j].key@ != metadata[k].key@) ==> value_of(
            metadata,
            metadata[k].key@,
        ) == Some(metadata[k].value),
        0 <= k < tensors.len() && (forall|j: int|
            0 <= j < k ==> #[trigger] tensors[j].name@ != tensors[k].name@) ==> dims_of(
            tensors,
            tensors[k].name@,
        ) == Some(tensors[k].dims@),
    decreases metadata.len() + tensors.len(),
{
    if 0 < k {
        let entries = if metadata.len() > 0 {
            metadata.drop_first()
        } else {
            metadata
        };
        let rest = if tensors.len() > 0 {
            tensors.drop_first()
        } else {
            tensors
        };
        if k < metadata.len() || k < tensors.len() {
            first_entry_counts(entries, rest, k - 1);
        }
        if k < metadata.len() {
            assert(entries[k - 1] == metadata[k]);
            assert(forall|j: int| 0 <= j < k - 1 ==> #[trigger] entries[j] == metadata[j + 1]);
            if forall|j: int| 0 <= j < k ==> #[trigger] metadata[j].key@ != metadata[k].key@ {
                assert(metadata[0].key@ != metadata[k].key@);
                assert forall|j: int| 0 <= j < k - 1 implies #[trigger] entries[j].key@
                    != entries[k - 1].key@ by {
                    assert(metadata[j + 1].key@ != metadata[k].key@);
                }
            }
        }
        if k < tensors.len() {
            assert(rest[k - 1] == tensors[k]);
            if forall|j: int| 0 <= j < k ==> #[trigger] tensors[j].name@ != tensors[k].name@ {
                assert(tensors[0].name@ != tensors[k].name@);
                assert forall|j: int| 0 <= j < k - 1 implies #[trigger] rest[j].name@ != rest[k
                    - 1].name@ by {
                    assert(tensors[j + 1].name@ != tensors[k].name@);
                }
            }
        }
    }
}

/// What a value is read as: unsigned numbers of any width as themselves and truth values as zero
/// and one, but no signed number, fraction, text or array; texts as themselves; and fractions of
/// either precision by their own bits.
pub proof fn values_are_read_as_themselves(value: MetaValue)
    ensures
        match value {
            MetaValue::U8(v) => value.unsigned() matches Some(n) && n == v,
            MetaValue::U16(v) => value.unsigned() matches Some(n) && n == v,
            MetaValue::U32(v) => value.unsigned() matches Some(n) && n == v,
            MetaValue::U64(v) => value.unsigned() == Some(v),
            MetaValue::Bool(v) => value.unsigned() matches Some(n) && (v ==> n == 1) && (!v ==> n
                == 0),
            _ => value.unsigned() is None,
        },
        value.text() is Some <==> value is Text,
        value matches MetaValue::Text(s) ==> value.text() == Some(s@),
        value matches MetaValue::F32(bits) ==> value.float() == FloatSetting::Single(bits),
        value matches MetaValue::F64(bits) ==> value.float() == FloatSetting::Double(bits),
        !(value is F32) && !(value is F64) ==> value.float() == FloatSetting::Default,
{
}

/// A message that names an unknown format by its number is understood, wherever in the message it
/// is named and whatever follows the number.
pub proof fn named_format_is_understood(before: Seq<char>, n: nat, behind: Seq<char>)
    requires
        n <= u32::MAX,
        behind.len() > 0 ==> text::is_white_space(behind[0]),
        forall|i: int|
            0 <= i < before.len() ==> !text::occurs_at(
                before + "unknown dtype for tensor "@ + text::decimal(n) + behind,
                "unknown dtype for tensor "@,
                i,
            ),
    ensures
        unknown_dtype(before + "unknown dtype for tensor "@ + text::decimal(n) + behind) == Some(n),
{
    let marker = "unknown dtype for tensor "@;
    let number = text::decimal(n);
    let message = before + marker + number + behind;
    let k = before.len() as int;
    assert(message.subrange(k, k + marker.len()) =~= marker);
    assert(text::occurs_at(message, marker, k));
    text::lemma_find_is_first(message, marker, 0, k);
    let rest = message.skip(k + marker.len());
    assert(rest =~= number + behind);
    text::lemma_decimal(n);
    text::decimal_is_read_back(n, u32::MAX as nat);
    assert(text::is_digit(number[0]));
    assert(rest[0] == number[0]);
    assert(text::trim_start(rest) == rest);
    let keep = |c: char| !text::is_white_space(c);
    text::lemma_prefix_while(rest, keep);
    let w = text::prefix_while(rest, keep);
    if w.len() < number.len() {
        assert(rest[w.len() as int] == number[w.len() as int]);
        assert(text::is_digit(number[w.len() as int]));
    } else if w.len() > number.len() {
        assert(keep(w[number.len() as int]));
        assert(rest[number.len() as int] == behind[0]);
    }
    assert(w =~= number);
}

/// The explanation of an unknown format says the path and the number as they are.
pub proof fn explanation_names_file_and_format(path: Seq<char>, n: u32)
    ensures
        ("gguf file "@ + path + " uses unsupported ggml dtype "@ + text::decimal(
            n as nat,
        )).is_prefix_of(annotation(path, n as nat)),
{
    let said = "gguf file "@ + path + " uses unsupported ggml dtype "@ + text::decimal(n as nat);
    let all = annotation(path, n as nat);
    assert(all.take(said.len() as int) =~= said);
}

}

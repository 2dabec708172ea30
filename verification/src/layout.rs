//! What a repository holds: which files decide how the model is loaded.
use crate::text;
use vstd::prelude::*;

verus! {

/// The lexicographic order of texts by code point.
pub open spec fn before(a: Seq<char>, b: Seq<char>) -> bool
    decreases a.len(),
{
    if b.len() == 0 {
        false
    } else if a.len() == 0 {
        true
    } else if a[0] != b[0] {
        a[0] < b[0]
    } else {
        before(a.drop_first(), b.drop_first())
    }
}

/// A sorted sequence with `x` in its place, unless it is there already.
pub open spec fn inserted(s: Seq<Seq<char>>, x: Seq<char>) -> Seq<Seq<char>>
    decreases s.len(),
{
    if s.len() == 0 {
        seq![x]
    } else if before(s[0], x) {
        seq![s[0]] + inserted(s.drop_first(), x)
    } else if s[0] == x {
        s
    } else {
        seq![x] + s
    }
}

/// The distinct names in ascending order.
pub open spec fn sorted_names(names: Seq<Seq<char>>) -> Seq<Seq<char>>
    decreases names.len(),
{
    if names.len() == 0 {
        Seq::empty()
    } else {
        inserted(sorted_names(names.drop_last()), names.last())
    }
}

pub open spec fn strictly_ascending(s: Seq<Seq<char>>) -> bool {
    forall|i: int, j: int| 0 <= i < j < s.len() ==> before(#[trigger] s[i], #[trigger] s[j])
}

/// A configuration with dense weights, whole or in shards.
pub open spec fn is_dense(files: Seq<Seq<char>>) -> bool {
    files.contains("config.json"@) && (files.contains("model.safetensors"@) || files.contains(
        "model.safetensors.index.json"@,
    ))
}

/// The GGUF files among `files`.
pub open spec fn gguf_names(files: Seq<Seq<char>>) -> Seq<Seq<char>> {
    files.filter(|name: Seq<char>| ".gguf"@.is_suffix_of(name))
}

/// How a repository is to be loaded.
#[derive(Debug)]
pub enum SourceChoice {
    /// Load this GGUF file.
    Gguf(String),
    /// Load the dense weights.
    Dense,
    /// Several GGUF files, none of them preferred: ask which.
    ChooseGguf(Vec<String>),
    /// Neither dense weights nor a GGUF file.
    Unsupported,
}

/// The mathematical form of a `SourceChoice`.
pub enum Resolution {
    Gguf(Seq<char>),
    Dense,
    ChooseGguf(Seq<Seq<char>>),
    Unsupported,
}

impl View for SourceChoice {
    type V = Resolution;

    open spec fn view(&self) -> Resolution {
        match self {
            SourceChoice::Gguf(name) => Resolution::Gguf(name@),
            SourceChoice::Dense => Resolution::Dense,
            SourceChoice::ChooseGguf(names) => Resolution::ChooseGguf(text::views(names@)),
            SourceChoice::Unsupported => Resolution::Unsupported,
        }
    }
}

/// How a repository with these files is to be loaded when `gguf_file` is the preferred file.
///
/// Dense weights come first, except where a quantized model is asked for, or where the preferred
/// file is there beside them.
pub open spec fn resolution(files: Seq<Seq<char>>, gguf_file: Seq<char>, quantized: bool) -> Resolution {
    let ggufs = gguf_names(files);
    if is_dense(files) && !quantized && !(ggufs.len() > 0 && files.contains(gguf_file)) {
        Resolution::Dense
    } else if ggufs.len() == 0 {
        Resolution::Unsupported
    } else if files.contains(gguf_file) {
        Resolution::Gguf(gguf_file)
    } else if ggufs.len() == 1 {
        Resolution::Gguf(ggufs[0])
    } else {
        Resolution::ChooseGguf(ggufs)
    }
}

/// How dense weights are stored.
#[derive(Debug, Clone, Copy, PartialEq, Eq, Structural)]
pub enum WeightLayout {
    /// An index file names the shards.
    Sharded,
    /// One file.
    Single,
    /// No safetensors weights.
    Missing,
}

pub open spec fn weight_layout_of(files: Seq<Seq<char>>) -> WeightLayout {
    if files.contains("model.safetensors.index.json"@) {
        WeightLayout::Sharded
    } else if files.contains("model.safetensors"@) {
        WeightLayout::Single
    } else {
        WeightLayout::Missing
    }
}

/// Whether `a` comes before `b` in the order of texts.
pub fn comes_before(a: &str, b: &str) -> (r: bool)
    ensures
        r == before(a@, b@),
{
    let x = text::chars_of(a);
    let y = text::chars_of(b);
    let mut i: usize = 0;
    assert(a@.skip(0) =~= a@ && b@.skip(0) =~= b@);
    while i < x.len() && i < y.len()
        invariant
            x@ == a@,
            y@ == b@,
            0 <= i <= a@.len(),
            i <= b@.len(),
            before(a@, b@) == before(a@.skip(i as int), b@.skip(i as int)),
        decreases a@.len() - i,
    {
        if x[i] != y[i] {
            return x[i] < y[i];
        }
        assert(a@.skip(i as int).drop_first() =~= a@.skip(i + 1));
        assert(b@.skip(i as int).drop_first() =~= b@.skip(i + 1));
        i = i + 1;
    }
    i < y.len()
}

proof fn lemma_before_irreflexive(a: Seq<char>)
    ensures
        !before(a, a),
    decreases a.len(),
{
    if a.len() > 0 {
        lemma_before_irreflexive(a.drop_first());
    }
}

proof fn lemma_before_transitive(a: Seq<char>, b: Seq<char>, c: Seq<char>)
    requires
        before(a, b),
        before(b, c),
    ensures
        before(a, c),
    decreases a.len(),
{
    if a.len() > 0 && a[0] == b[0] && b[0] == c[0] {
        lemma_before_transitive(a.drop_first(), b.drop_first(), c.drop_first());
    }
}

proof fn lemma_before_total(a: Seq<char>, b: Seq<char>)
    ensures
        before(a, b) || a == b || before(b, a),
    decreases a.len(),
{
    if a.len() == 0 && b.len() == 0 {
        assert(a =~= b);
    } else if a.len() > 0 && b.len() > 0 && a[0] == b[0] {
        lemma_before_total(a.drop_first(), b.drop_first());
        assert(a =~= seq![a[0]] + a.drop_first());
        assert(b =~= seq![b[0]] + b.drop_first());
    }
}

fn insert_name(set: &mut Vec<String>, name: &String)
    ensures
        text::views(final(set)@) == inserted(text::views(old(set)@), name@),
{
    let mut i: usize = 0;
    let ghost s = text::views(set@);
    assert(s.take(0) + inserted(s.skip(0), name@) =~= inserted(s, name@)) by {
        assert(s.skip(0) =~= s);
    }
    while i < set.len() && comes_before(set[i].as_str(), name.as_str())
        invariant
            set@ == old(set)@,
            s == text::views(set@),
            0 <= i <= set@.len(),
            inserted(s, name@) == s.take(i as int) + inserted(s.skip(i as int), name@),
        decreases set@.len() - i,
    {
        assert(s[i as int] == set@[i as int]@);
        assert(s.skip(i as int).drop_first() =~= s.skip(i + 1));
        assert(s.take(i + 1) =~= s.take(i as int) + seq![s[i as int]]);
        assert(s.take(i as int) + (seq![s[i as int]] + inserted(s.skip(i + 1), name@)) =~= s.take(
            i + 1,
        ) + inserted(s.skip(i + 1), name@));
        i = i + 1;
    }
    if i < set.len() && set[i] == *name {
        assert(s.take(i as int) + s.skip(i as int) =~= s);
        return;
    }
    let n: usize = set.len();
    set.insert(i, name.clone());
    assert(text::views(set@) =~= s.take(i as int) + inserted(s.skip(i as int), name@)) by {
        if i == n {
            assert(s.skip(i as int) =~= Seq::empty());
        }
    }
}

/// The distinct names in ascending order.
pub fn sorted_set(names: &Vec<String>) -> (r: Vec<String>)
    ensures
        text::views(r@) == sorted_names(text::views(names@)),
{
    let mut r: Vec<String> = Vec::new();
    let ghost all = text::views(names@);
    let mut i: usize = 0;
    assert(all.take(0) =~= Seq::empty());
    assert(text::views(r@) =~= Seq::empty());
    while i < names.len()
        invariant
            0 <= i <= names@.len(),
            all == text::views(names@),
            text::views(r@) == sorted_names(all.take(i as int)),
        decreases names@.len() - i,
    {
        assert(all.take(i + 1).drop_last() =~= all.take(i as int));
        insert_name(&mut r, &names[i]);
        i = i + 1;
    }
    assert(all.take(i as int) =~= all);
    r
}

/// Whether `name` is one of `files`.
pub fn holds(files: &Vec<String>, name: &str) -> (r: bool)
    ensures
        r == text::views(files@).contains(name@),
{
    let mut i: usize = 0;
    let ghost all = text::views(files@);
    while i < files.len()
        invariant
            0 <= i <= files@.len(),
            all == text::views(files@),
            forall|k: int| 0 <= k < i ==> #[trigger] all[k] != name@,
        decreases files@.len() - i,
    {
        if text::same_text(files[i].as_str(), name) {
            assert(all[i as int] == name@);
            return true;
        }
        i = i + 1;
    }
    false
}

fn gguf_files(files: &Vec<String>) -> (r: Vec<String>)
    ensures
        text::views(r@) == gguf_names(text::views(files@)),
{
    let mut r: Vec<String> = Vec::new();
    let ghost all = text::views(files@);
    let ghost wanted = |name: Seq<char>| ".gguf"@.is_suffix_of(name);
    let mut i: usize = 0;
    reveal(Seq::filter);
    assert(all.take(0) =~= Seq::empty());
    assert(text::views(r@) =~= Seq::empty());
    while i < files.len()
        invariant
            0 <= i <= files@.len(),
            all == text::views(files@),
            wanted == (|name: Seq<char>| ".gguf"@.is_suffix_of(name)),
            text::views(r@) == all.take(i as int).filter(wanted),
        decreases files@.len() - i,
    {
        reveal(Seq::filter);
        assert(all.take(i + 1).drop_last() =~= all.take(i as int));
        let ghost sofar = r@;
        if text::has_suffix(files[i].as_str(), ".gguf") {
            r.push(files[i].clone());
            assert(text::views(r@) =~= text::views(sofar).push(all[i as int]));
        }
        i = i + 1;
    }
    assert(all.take(i as int) =~= all);
    r
}

/// How to load a repository that lists these files, when `gguf_file` is the preferred file.
pub fn resolve_model_source(listing: &Vec<String>, gguf_file: &str, quantized: bool) -> (r:
    SourceChoice)
    ensures
        r@ == resolution(sorted_names(text::views(listing@)), gguf_file@, quantized),
{
    let files = sorted_set(listing);
    let dense = holds(&files, "config.json") && (holds(&files, "model.safetensors") || holds(
        &files,
        "model.safetensors.index.json",
    ));
    let ggufs = gguf_files(&files);
    let preferred = holds(&files, gguf_file);
    if dense && !quantized && !(ggufs.len() > 0 && preferred) {
        SourceChoice::Dense
    } else if ggufs.len() == 0 {
        SourceChoice::Unsupported
    } else if preferred {
        SourceChoice::Gguf(gguf_file.to_owned())
    } else if ggufs.len() == 1 {
        SourceChoice::Gguf(ggufs[0].clone())
    } else {
        SourceChoice::ChooseGguf(ggufs)
    }
}

/// How the dense weights of a repository that lists these files are stored.
pub fn weight_layout(listing: &Vec<String>) -> (r: WeightLayout)
    ensures
        r == weight_layout_of(text::views(listing@)),
{
    if holds(listing, "model.safetensors.index.json") {
        WeightLayout::Sharded
    } else if holds(listing, "model.safetensors") {
        WeightLayout::Single
    } else {
        WeightLayout::Missing
    }
}

/// The address from which a file of a repository is fetched.
pub fn file_url(repo_id: &str, filename: &str) -> (r: String)
    ensures
        r@ == "https://huggingface.co/"@ + repo_id@ + "/resolve/main/"@ + text::spaces_escaped(
            filename@,
        ),
{
    let mut r = "https://huggingface.co/".to_owned();
    r.append(repo_id);
    r.append("/resolve/main/");
    let name = text::escape_spaces(filename);
    r.append(name.as_str());
    r
}

/// The size that a `content-length` header gives.
pub fn content_length(header: &str) -> (r: Option<u64>)
    ensures
        match text::parsed(header@, u64::MAX as nat) {
            Some(n) => r == Some(n as u64),
            None => r is None,
        },
{
    text::parse_number(header, u64::MAX)
}

proof fn lemma_inserted(s: Seq<Seq<char>>, x: Seq<char>)
    requires
        strictly_ascending(s),
    ensures
        strictly_ascending(inserted(s, x)),
        forall|y: Seq<char>| #[trigger]
            inserted(s, x).contains(y) <==> s.contains(y) || y == x,
    decreases s.len(),
{
    let r = inserted(s, x);
    if s.len() == 0 {
        assert(r[0] == x);
    } else if before(s[0], x) {
        let rest = s.drop_first();
        assert forall|i: int, j: int| 0 <= i < j < rest.len() implies before(
            #[trigger] rest[i],
            #[trigger] rest[j],
        ) by {
            assert(before(s[i + 1], s[j + 1]));
        }
        lemma_inserted(rest, x);
        let tail = inserted(rest, x);
        assert forall|k: int| 0 <= k < tail.len() implies before(s[0], #[trigger] tail[k]) by {
            assert(tail.contains(tail[k]));
            if rest.contains(tail[k]) {
                let m = choose|m: int| 0 <= m < rest.len() && rest[m] == tail[k];
                assert(before(s[0], s[m + 1]));
            }
        }
        assert forall|i: int, j: int| 0 <= i < j < r.len() implies before(
            #[trigger] r[i],
            #[trigger] r[j],
        ) by {
            assert(r[j] == tail[j - 1]);
            if i > 0 {
                assert(r[i] == tail[i - 1]);
            }
        }
        assert forall|y: Seq<char>| #[trigger] r.contains(y) <==> s.contains(y) || y == x by {
            if r.contains(y) {
                let k = choose|k: int| 0 <= k < r.len() && r[k] == y;
                if k > 0 {
                    assert(tail[k - 1] == y);
                    assert(tail.contains(y));
                    if rest.contains(y) {
                        let m = choose|m: int| 0 <= m < rest.len() && rest[m] == y;
                        assert(s[m + 1] == y);
                    }
                }
            }
            if s.contains(y) || y == x {
                if y == s[0] {
                    assert(r[0] == y);
                } else {
                    if s.contains(y) {
                        let m = choose|m: int| 0 <= m < s.len() && s[m] == y;
                        assert(rest[m - 1] == y);
                    }
                    assert(tail.contains(y));
                    let k = choose|k: int| 0 <= k < tail.len() && tail[k] == y;
                    assert(r[k + 1] == y);
                }
            }
        }
    } else if s[0] == x {
    } else {
        lemma_before_total(s[0], x);
        assert forall|i: int, j: int| 0 <= i < j < r.len() implies before(
            #[trigger] r[i],
            #[trigger] r[j],
        ) by {
            assert(r[j] == s[j - 1]);
            if i > 0 {
                assert(r[i] == s[i - 1]);
            } else if j > 1 {
                lemma_before_transitive(x, s[0], s[j - 1]);
            }
        }
        assert forall|y: Seq<char>| #[trigger] r.contains(y) <==> s.contains(y) || y == x by {
            if s.contains(y) {
                let m = choose|m: int| 0 <= m < s.len() && s[m] == y;
                assert(r[m + 1] == y);
            }
            assert(r[0] == x);
            if r.contains(y) {
                let k = choose|k: int| 0 <= k < r.len() && r[k] == y;
                if k > 0 {
                    assert(s[k - 1] == y);
                }
            }
        }
    }
}

/// The sorted names ascend strictly and are the given names, so that none occurs twice.
pub proof fn sorted_names_are_the_names(names: Seq<Seq<char>>)
    ensures
        strictly_ascending(sorted_names(names)),
        sorted_names(names).no_duplicates(),
        forall|x: Seq<char>| #[trigger] sorted_names(names).contains(x) <==> names.contains(x),
    decreases names.len(),
{
    let r = sorted_names(names);
    if names.len() > 0 {
        sorted_names_are_the_names(names.drop_last());
        lemma_inserted(sorted_names(names.drop_last()), names.last());
        assert forall|x: Seq<char>| #[trigger] r.contains(x) <==> names.contains(x) by {
            if names.contains(x) {
                let k = choose|k: int| 0 <= k < names.len() && names[k] == x;
                if k < names.len() - 1 {
                    assert(names.drop_last()[k] == x);
                    assert(sorted_names(names.drop_last()).contains(x));
                }
            }
            if r.contains(x) && x != names.last() {
                assert(sorted_names(names.drop_last()).contains(x));
                let k = choose|k: int|
                    0 <= k < names.drop_last().len() && names.drop_last()[k] == x;
                assert(names[k] == x);
            }
            assert(names[names.len() - 1] == names.last());
        }
    }
    assert forall|i: int, j: int| 0 <= i < r.len() && 0 <= j < r.len() && i != j implies r[i]
        != r[j] by {
        lemma_before_irreflexive(r[i]);
        if i < j {
            assert(before(r[i], r[j]));
        } else {
            assert(before(r[j], r[i]));
        }
    }
}

/// The way a repository is loaded depends only on which files it lists, not on their order or
/// on how often each is listed.
pub proof fn resolution_ignores_listing_order(
    a: Seq<Seq<char>>,
    b: Seq<Seq<char>>,
    gguf_file: Seq<char>,
    quantized: bool,
)
    requires
        forall|x: Seq<char>| #[trigger] a.contains(x) <==> b.contains(x),
    ensures
        resolution(sorted_names(a), gguf_file, quantized) == resolution(
            sorted_names(b),
            gguf_file,
            quantized,
        ),
{
    sorted_names_are_the_names(a);
    sorted_names_are_the_names(b);
    assert forall|x: Seq<char>| #[trigger] sorted_names(a).contains(x) <==> sorted_names(
        b,
    ).contains(x) by {
        assert(a.contains(x) <==> b.contains(x));
    }
    lemma_ascending_is_unique(sorted_names(a), sorted_names(b));
}

/// A run that asks for a quantized model never loads dense weights.
pub proof fn quantized_run_loads_no_dense_weights(files: Seq<Seq<char>>, gguf_file: Seq<char>)
    ensures
        resolution(files, gguf_file, true) != Resolution::Dense,
        resolution(files, gguf_file, true) is Unsupported <==> gguf_names(files).len() == 0,
{
}

proof fn lemma_ascending_is_unique(a: Seq<Seq<char>>, b: Seq<Seq<char>>)
    requires
        strictly_ascending(a),
        strictly_ascending(b),
        forall|x: Seq<char>| #[trigger] a.contains(x) <==> b.contains(x),
    ensures
        a == b,
    decreases a.len(),
{
    if a.len() == 0 {
        if b.len() > 0 {
            assert(b.contains(b[0]));
            assert(a.contains(b[0]));
        }
        assert(a =~= b);
    } else {
        assert(a.contains(a[0]));
        assert(b.contains(a[0]));
        let m = choose|m: int| 0 <= m < b.len() && b[m] == a[0];
        assert(b.contains(b[0]));
        assert(a.contains(b[0]));
        let k = choose|k: int| 0 <= k < a.len() && a[k] == b[0];
        lemma_before_irreflexive(a[0]);
        if m > 0 {
            assert(before(b[0], b[m]));
            if k > 0 {
                assert(before(a[0], a[k]));
                lemma_before_transitive(a[0], b[0], a[0]);
            }
            assert(false);
        }
        assert(a[0] == b[0]);
        let x = a.drop_first();
        let y = b.drop_first();
        assert forall|i: int, j: int| 0 <= i < j < x.len() implies before(
            #[trigger] x[i],
            #[trigger] x[j],
        ) by {
            assert(before(a[i + 1], a[j + 1]));
        }
        assert forall|i: int, j: int| 0 <= i < j < y.len() implies before(
            #[trigger] y[i],
            #[trigger] y[j],
        ) by {
            assert(before(b[i + 1], b[j + 1]));
        }
        assert forall|z: Seq<char>| #[trigger] x.contains(z) <==> y.contains(z) by {
            if x.contains(z) {
                let i = choose|i: int| 0 <= i < x.len() && x[i] == z;
                assert(before(a[0], a[i + 1]));
                assert(a[i + 1] == z);
                assert(a.contains(z));
                assert(b.contains(z));
                let j = choose|j: int| 0 <= j < b.len() && b[j] == z;
                assert(j > 0);
                assert(y[j - 1] == z);
            }
            if y.contains(z) {
                let i = choose|i: int| 0 <= i < y.len() && y[i] == z;
                assert(before(b[0], b[i + 1]));
                assert(b[i + 1] == z);
                assert(b.contains(z));
                assert(a.contains(z));
                let j = choose|j: int| 0 <= j < a.len() && a[j] == z;
                assert(j > 0);
                assert(x[j - 1] == z);
            }
        }
        lemma_ascending_is_unique(x, y);
        assert(a =~= seq![a[0]] + x);
        assert(b =~= seq![b[0]] + y);
    }
}

/// The GGUF files of a listing, each once and in ascending order.
proof fn lemma_gguf_files(listing: Seq<Seq<char>>)
    ensures
        ({
            let names = gguf_names(sorted_names(listing));
            &&& strictly_ascending(names)
            &&& forall|x: Seq<char>| #[trigger] names.contains(x) <==> listing.contains(x)
                && ".gguf"@.is_suffix_of(x)
        }),
{
    sorted_names_are_the_names(listing);
    let files = sorted_names(listing);
    let wanted = |name: Seq<char>| ".gguf"@.is_suffix_of(name);
    let names = gguf_names(files);
    assert forall|x: Seq<char>| #[trigger] names.contains(x) <==> listing.contains(x)
        && ".gguf"@.is_suffix_of(x) by {
        if names.contains(x) {
            files.lemma_filter_contains_rev(wanted, x);
            let k = choose|k: int| 0 <= k < names.len() && names[k] == x;
            files.lemma_filter_pred(wanted, k);
            assert(files.contains(x));
        }
        if listing.contains(x) && ".gguf"@.is_suffix_of(x) {
            assert(files.contains(x));
            let k = choose|k: int| 0 <= k < files.len() && files[k] == x;
            files.lemma_filter_contains(wanted, k);
        }
    }
    lemma_filter_ascends(files, wanted);
}

/// A part of an ascending sequence ascends.
proof fn lemma_filter_ascends(s: Seq<Seq<char>>, wanted: spec_fn(Seq<char>) -> bool)
    requires
        strictly_ascending(s),
    ensures
        strictly_ascending(s.filter(wanted)),
    decreases s.len(),
{
    reveal(Seq::filter);
    if s.len() > 0 {
        let rest = s.drop_last();
        lemma_filter_ascends(rest, wanted);
        let (part, whole) = (rest.filter(wanted), s.filter(wanted));
        assert forall|i: int, j: int| 0 <= i < j < whole.len() implies before(
            #[trigger] whole[i],
            #[trigger] whole[j],
        ) by {
            if j < part.len() {
                assert(before(part[i], part[j]));
            } else {
                assert(part.contains(part[i]));
                rest.lemma_filter_contains_rev(wanted, part[i]);
                let k = choose|k: int| 0 <= k < rest.len() && rest[k] == part[i];
                assert(before(s[k], s[s.len() - 1]));
            }
        }
    }
}

/// Where a repository lists the preferred file and holds a GGUF file at all, the preferred file is
/// what is loaded, whether or not a quantized model was asked for and whatever else is listed.
pub proof fn preferred_file_is_loaded(
    listing: Seq<Seq<char>>,
    gguf_file: Seq<char>,
    quantized: bool,
    some: Seq<char>,
)
    requires
        listing.contains(gguf_file),
        listing.contains(some),
        ".gguf"@.is_suffix_of(some),
    ensures
        resolution(sorted_names(listing), gguf_file, quantized) == Resolution::Gguf(gguf_file),
{
    sorted_names_are_the_names(listing);
    lemma_gguf_files(listing);
    let names = gguf_names(sorted_names(listing));
    assert(names.contains(some));
    assert(sorted_names(listing).contains(gguf_file));
}

/// A GGUF file that is loaded is a listed one. It is the preferred file wherever that is listed,
/// and otherwise the only GGUF file of the repository.
pub proof fn loaded_file_is_the_preferred_or_the_only_one(
    listing: Seq<Seq<char>>,
    gguf_file: Seq<char>,
    quantized: bool,
)
    ensures
        resolution(sorted_names(listing), gguf_file, quantized) matches Resolution::Gguf(name) ==> {
            &&& listing.contains(name)
            &&& listing.contains(gguf_file) ==> name == gguf_file
            &&& !listing.contains(gguf_file) ==> ".gguf"@.is_suffix_of(name) && forall|other:
                Seq<char>| #[trigger]
                listing.contains(other) && ".gguf"@.is_suffix_of(other) ==> other == name
        },
{
    sorted_names_are_the_names(listing);
    lemma_gguf_files(listing);
    let files = sorted_names(listing);
    let names = gguf_names(files);
    if resolution(files, gguf_file, quantized) is Gguf {
        if files.contains(gguf_file) {
            assert(listing.contains(gguf_file));
        } else {
            assert(names.contains(names[0]));
            assert forall|other: Seq<char>| #[trigger]
                listing.contains(other) && ".gguf"@.is_suffix_of(other) implies other
                == names[0] by {
                assert(names.contains(other));
            }
            assert(!listing.contains(gguf_file));
        }
    }
}

/// Where the choice of a GGUF file is left to the user, there are at least two, the preferred file
/// is not listed, and all listed GGUF files are offered, each once and in ascending order.
pub proof fn choice_is_among_all_gguf_files(
    listing: Seq<Seq<char>>,
    gguf_file: Seq<char>,
    quantized: bool,
)
    ensures
        resolution(sorted_names(listing), gguf_file, quantized) matches Resolution::ChooseGguf(
            names,
        ) ==> {
            &&& names.len() >= 2
            &&& !listing.contains(gguf_file)
            &&& names.no_duplicates()
            &&& strictly_ascending(names)
            &&& forall|x: Seq<char>| #[trigger] names.contains(x) <==> listing.contains(x)
                && ".gguf"@.is_suffix_of(x)
        },
{
    sorted_names_are_the_names(listing);
    lemma_gguf_files(listing);
    let files = sorted_names(listing);
    let names = gguf_names(files);
    assert forall|i: int, j: int| 0 <= i < names.len() && 0 <= j < names.len() && i != j implies
        names[i] != names[j] by {
        lemma_before_irreflexive(names[i]);
        if i < j {
            assert(before(names[i], names[j]));
        } else {
            assert(before(names[j], names[i]));
        }
    }
    if listing.contains(gguf_file) {
        assert(files.contains(gguf_file));
    }
}

/// Dense weights are loaded exactly where no quantized model is asked for, the configuration and
/// the weights are listed, and no preferred GGUF file stands beside them. Nothing can be loaded
/// exactly where no GGUF file is listed and dense weights are not listed or not wanted.
pub proof fn dense_weights_are_loaded_where_they_are(
    listing: Seq<Seq<char>>,
    gguf_file: Seq<char>,
    quantized: bool,
)
    ensures
        ({
            let r = resolution(sorted_names(listing), gguf_file, quantized);
            let dense = listing.contains("config.json"@) && (listing.contains(
                "model.safetensors"@,
            ) || listing.contains("model.safetensors.index.json"@));
            let gguf = exists|x: Seq<char>| #[trigger]
                listing.contains(x) && ".gguf"@.is_suffix_of(x);
            &&& r is Dense <==> dense && !quantized && !(gguf && listing.contains(gguf_file))
            &&& r is Unsupported <==> !gguf && (quantized || !dense)
        }),
{
    sorted_names_are_the_names(listing);
    lemma_gguf_files(listing);
    let files = sorted_names(listing);
    let names = gguf_names(files);
    let gguf = exists|x: Seq<char>| #[trigger] listing.contains(x) && ".gguf"@.is_suffix_of(x);
    if names.len() > 0 {
        assert(names.contains(names[0]));
        assert(listing.contains(names[0]));
    }
    if gguf {
        let x = choose|x: Seq<char>| #[trigger] listing.contains(x) && ".gguf"@.is_suffix_of(x);
        assert(names.contains(x));
    }
    assert(gguf <==> names.len() > 0);
    assert(files.contains("config.json"@) <==> listing.contains("config.json"@));
    assert(files.contains("model.safetensors"@) <==> listing.contains("model.safetensors"@));
    assert(files.contains("model.safetensors.index.json"@) <==> listing.contains(
        "model.safetensors.index.json"@,
    ));
    assert(files.contains(gguf_file) <==> listing.contains(gguf_file));
}

/// Asking for a quantized model changes nothing where a GGUF file is chosen without it, and turns
/// dense weights into whichever GGUF files are listed.
pub proof fn asking_for_quantized_only_rules_out_dense(
    listing: Seq<Seq<char>>,
    gguf_file: Seq<char>,
)
    ensures
        resolution(sorted_names(listing), gguf_file, false) !is Dense ==> resolution(
            sorted_names(listing),
            gguf_file,
            true,
        ) == resolution(sorted_names(listing), gguf_file, false),
        resolution(sorted_names(listing), gguf_file, true) !is Dense,
{
}

/// Dense weights that a repository offers are never missing when they are laid out, and an index of
/// shards comes before a single file.
pub proof fn dense_weights_have_a_layout(listing: Seq<Seq<char>>, gguf_file: Seq<char>, quantized: bool)
    ensures
        resolution(sorted_names(listing), gguf_file, quantized) is Dense ==> !(weight_layout_of(
            listing,
        ) is Missing),
        weight_layout_of(listing) is Sharded <==> listing.contains("model.safetensors.index.json"@),
        weight_layout_of(listing.push("model.safetensors.index.json"@)) is Sharded,
        weight_layout_of(listing) is Missing ==> weight_layout_of(
            listing.push("model.safetensors"@),
        ) is Single,
{
    sorted_names_are_the_names(listing);
    let files = sorted_names(listing);
    assert(files.contains("model.safetensors"@) <==> listing.contains("model.safetensors"@));
    assert(files.contains("model.safetensors.index.json"@) <==> listing.contains(
        "model.safetensors.index.json"@,
    ));
    let (index, single) = ("model.safetensors.index.json"@, "model.safetensors"@);
    assert(listing.push(index)[listing.len() as int] == index);
    assert(listing.push(single)[listing.len() as int] == single);
    reveal_strlit("model.safetensors.index.json");
    reveal_strlit("model.safetensors");
    assert(index.len() != single.len());
    if listing.push(single).contains(index) {
        let k = choose|k: int| 0 <= k <= listing.len() && listing.push(single)[k] == index;
        assert(listing[k] == index);
    }
}

/// The order of names: a name comes before its extensions, and otherwise the first difference
/// decides.
pub proof fn names_are_ordered_by_their_first_difference(
    common: Seq<char>,
    a: Seq<char>,
    b: Seq<char>,
)
    requires
        b.len() > 0,
        a.len() > 0 ==> a[0] != b[0],
    ensures
        before(common + a, common + b) <==> a.len() == 0 || a[0] < b[0],
    decreases common.len(),
{
    if common.len() == 0 {
        assert(common + a =~= a);
        assert(common + b =~= b);
    } else {
        assert((common + a).drop_first() =~= common.drop_first() + a);
        assert((common + b).drop_first() =~= common.drop_first() + b);
        names_are_ordered_by_their_first_difference(common.drop_first(), a, b);
    }
}

}

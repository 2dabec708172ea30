//! Model repository names: packaging suffixes, official repositories, tokenizer candidates.
use crate::text;
use vstd::prelude::*;

verus! {

/// Where the weights of the model come from.
#[derive(Debug)]
pub enum ModelSource {
    /// Dense safetensors weights of a repository.
    Dense { repo_id: String },
    /// One quantized GGUF file of a repository.
    Quantized { repo_id: String },
}

/// The packaging suffix at the end of a model name.
pub open spec fn packaging_of(id: Seq<char>) -> Option<Seq<char>> {
    if "-GGUF"@.is_suffix_of(id) {
        Some("-GGUF"@)
    } else if "-gguf"@.is_suffix_of(id) {
        Some("-gguf"@)
    } else if "-Imatrix"@.is_suffix_of(id) {
        Some("-Imatrix"@)
    } else if "-imatrix"@.is_suffix_of(id) {
        Some("-imatrix"@)
    } else {
        None
    }
}

/// A model name without any of its trailing packaging suffixes.
pub open spec fn unpackaged(id: Seq<char>) -> Seq<char>
    decreases id.len(),
{
    match packaging_of(id) {
        Some(suffix) => if 0 < suffix.len() <= id.len() {
            unpackaged(id.take(id.len() - suffix.len()))
        } else {
            id
        },
        None => id,
    }
}

/// What stripping a model name gives: nothing when it carries no packaging suffix.
pub open spec fn stripped(id: Seq<char>) -> Option<Seq<char>> {
    if packaging_of(id) is Some {
        Some(unpackaged(id))
    } else {
        None
    }
}

/// The official repository for the first `family` name in `id`.
///
/// The size that follows the family is a run of letters, digits and dots.
pub open spec fn official_in(family: Seq<char>, id: Seq<char>) -> Option<Seq<char>> {
    match text::find(id, family) {
        Some(start) => {
            let size = text::prefix_while(
                id.skip(start + family.len()),
                |c: char| text::is_alphanumeric(c) || c == '.',
            );
            if size.len() == 0 {
                None
            } else {
                Some("Qwen/"@ + family + size)
            }
        },
        None => None,
    }
}

/// The official repository that a model name points to.
pub open spec fn official_repo(id: Seq<char>) -> Option<Seq<char>> {
    match official_in("Qwen3.5-"@, id) {
        Some(repo) => Some(repo),
        None => official_in("Qwen3-"@, id),
    }
}

/// `items` with `item` at the end, unless it is there already.
pub open spec fn with_new(items: Seq<Seq<char>>, item: Seq<char>) -> Seq<Seq<char>> {
    if items.contains(item) {
        items
    } else {
        items.push(item)
    }
}

/// `base` followed by those of `items` that are new, each once, in their order.
pub open spec fn merged(base: Seq<Seq<char>>, items: Seq<Seq<char>>) -> Seq<Seq<char>>
    decreases items.len(),
{
    if items.len() == 0 {
        base
    } else {
        with_new(merged(base, items.drop_last()), items.last())
    }
}

/// No item or one item.
pub open spec fn listed(item: Option<Seq<char>>) -> Seq<Seq<char>> {
    match item {
        Some(i) => seq![i],
        None => Seq::empty(),
    }
}

/// A name and the official repository that it points to.
pub open spec fn named_repos(id: Seq<char>) -> Seq<Seq<char>> {
    seq![id] + listed(official_repo(id))
}

/// The stripped form of a name, behind the official repository that it points to.
pub open spec fn stripped_repos(id: Seq<char>) -> Seq<Seq<char>> {
    match stripped(id) {
        Some(name) => listed(official_repo(name)) + seq![name],
        None => Seq::empty(),
    }
}

/// Every repository that may hold the tokenizer, in order of preference.
pub open spec fn tokenizer_repos(requested: Seq<char>, source: ModelSource) -> Seq<Seq<char>> {
    match source {
        ModelSource::Dense { repo_id } => named_repos(requested) + named_repos(repo_id@),
        ModelSource::Quantized { repo_id } => named_repos(requested) + named_repos(repo_id@)
            + stripped_repos(requested) + stripped_repos(repo_id@),
    }
}

/// Removes every trailing packaging suffix from a model name.
///
/// Gives nothing when the name carries none.
pub fn strip_packaging_suffixes(model_id: &str) -> (r: Option<String>)
    ensures
        match stripped(model_id@) {
            Some(name) => r matches Some(found) && found@ == name,
            None => r is None,
        },
{
    let mut name: &str = model_id;
    let mut changed = false;
    loop
        invariant
            unpackaged(model_id@) == unpackaged(name@),
            changed <==> packaging_of(model_id@) is Some && name@ != model_id@,
            !changed ==> name@ == model_id@,
            name@.len() <= model_id@.len(),
        ensures
            packaging_of(name@) is None,
        decreases name@.len(),
    {
        proof {
            reveal_strlit("-GGUF");
            reveal_strlit("-gguf");
            reveal_strlit("-Imatrix");
            reveal_strlit("-imatrix");
        }
        let rest = match text::without_suffix(name, "-GGUF") {
            Some(rest) => Some(rest),
            None => match text::without_suffix(name, "-gguf") {
                Some(rest) => Some(rest),
                None => match text::without_suffix(name, "-Imatrix") {
                    Some(rest) => Some(rest),
                    None => text::without_suffix(name, "-imatrix"),
                },
            },
        };
        match rest {
            Some(next) => {
                proof {
                    let suffix = packaging_of(name@)->0;
                    assert(name@ == next@ + suffix);
                    assert(name@.take(name@.len() - suffix.len()) =~= next@);
                }
                name = next;
                changed = true;
            },
            None => {
                break;
            },
        }
    }
    if changed {
        Some(name.to_owned())
    } else {
        None
    }
}

fn official_in_family(family: &str, model_id: &str) -> (r: Option<String>)
    ensures
        match official_in(family@, model_id@) {
            Some(repo) => r matches Some(found) && found@ == repo,
            None => r is None,
        },
{
    match text::find_text(model_id, family) {
        Some(start) => {
            let family_len: usize = family.unicode_len();
            let total: usize = model_id.unicode_len();
            assert(start + family_len <= total);
            let size = text::dotted_run(model_id, start + family_len);
            if size.is_empty() {
                None
            } else {
                let mut repo = "Qwen/".to_owned();
                repo.append(family);
                repo.append(size);
                Some(repo)
            }
        },
        None => None,
    }
}

/// The official Qwen repository that a model name points to, if it names a family and a size.
pub fn infer_official_qwen_repo(model_id: &str) -> (r: Option<String>)
    ensures
        match official_repo(model_id@) {
            Some(repo) => r matches Some(found) && found@ == repo,
            None => r is None,
        },
{
    match official_in_family("Qwen3.5-", model_id) {
        Some(repo) => Some(repo),
        None => official_in_family("Qwen3-", model_id),
    }
}

/// Appends a value, unless an equal one is there already.
pub fn push_unique(values: &mut Vec<String>, value: String)
    ensures
        text::views(final(values)@) == with_new(text::views(old(values)@), value@),
{
    let mut i: usize = 0;
    while i < values.len()
        invariant
            values@ == old(values)@,
            0 <= i <= values@.len(),
            forall|k: int| 0 <= k < i ==> (#[trigger] text::views(values@)[k]) != value@,
        decreases values@.len() - i,
    {
        if values[i] == value {
            assert(text::views(values@)[i as int] == value@);
            return;
        }
        assert(text::views(values@)[i as int] != value@);
        i = i + 1;
    }
    values.push(value);
    assert(text::views(values@) =~= text::views(old(values)@).push(value@));
}

proof fn lemma_merged_concat(base: Seq<Seq<char>>, a: Seq<Seq<char>>, b: Seq<Seq<char>>)
    ensures
        merged(base, a + b) == merged(merged(base, a), b),
    decreases b.len(),
{
    if b.len() == 0 {
        assert(a + b =~= a);
    } else {
        lemma_merged_concat(base, a, b.drop_last());
        assert((a + b).drop_last() =~= a + b.drop_last());
    }
}

proof fn lemma_merged_one(base: Seq<Seq<char>>, item: Seq<char>)
    ensures
        merged(base, seq![item]) == with_new(base, item),
{
    assert(seq![item].drop_last() =~= Seq::empty());
    reveal_with_fuel(merged, 2);
}

fn push_official(candidates: &mut Vec<String>, id: &str)
    ensures
        text::views(final(candidates)@) == merged(text::views(old(candidates)@), listed(official_repo(id@))),
{
    match infer_official_qwen_repo(id) {
        Some(official) => {
            proof {
                lemma_merged_one(text::views(candidates@), official@);
            }
            push_unique(candidates, official);
        },
        None => {},
    }
}

fn push_named(candidates: &mut Vec<String>, id: &str)
    ensures
        text::views(final(candidates)@) == merged(text::views(old(candidates)@), named_repos(id@)),
{
    proof {
        lemma_merged_one(text::views(candidates@), id@);
        lemma_merged_concat(text::views(candidates@), seq![id@], listed(official_repo(id@)));
    }
    push_unique(candidates, id.to_owned());
    push_official(candidates, id);
}

fn push_stripped(candidates: &mut Vec<String>, id: &str)
    ensures
        text::views(final(candidates)@) == merged(text::views(old(candidates)@), stripped_repos(id@)),
{
    match strip_packaging_suffixes(id) {
        Some(name) => {
            proof {
                let first = listed(official_repo(name@));
                lemma_merged_concat(text::views(candidates@), first, seq![name@]);
                lemma_merged_one(merged(text::views(candidates@), first), name@);
            }
            push_official(candidates, name.as_str());
            push_unique(candidates, name);
        },
        None => {},
    }
}

/// The repositories to look for a tokenizer in, each once, the preferred one first.
pub fn tokenizer_model_candidates(requested_model_id: &str, model_source: &ModelSource) -> (r: Vec<
    String,
>)
    ensures
        text::views(r@) == merged(Seq::empty(), tokenizer_repos(requested_model_id@, *model_source)),
{
    let mut candidates: Vec<String> = Vec::new();
    let ghost none = Seq::<Seq<char>>::empty();
    assert(text::views(candidates@) =~= none);
    let ghost requested = requested_model_id@;
    push_named(&mut candidates, requested_model_id);
    match model_source {
        ModelSource::Dense { repo_id } => {
            push_named(&mut candidates, repo_id.as_str());
            proof {
                lemma_merged_concat(none, named_repos(requested), named_repos(repo_id@));
            }
        },
        ModelSource::Quantized { repo_id } => {
            push_named(&mut candidates, repo_id.as_str());
            push_stripped(&mut candidates, requested_model_id);
            push_stripped(&mut candidates, repo_id.as_str());
            proof {
                let a = named_repos(requested) + named_repos(repo_id@);
                lemma_merged_concat(none, named_repos(requested), named_repos(repo_id@));
                lemma_merged_concat(none, a, stripped_repos(requested));
                lemma_merged_concat(none, a + stripped_repos(requested), stripped_repos(repo_id@));
            }
        },
    }
    candidates
}

/// A stripped name carries no packaging suffix, and is what the name began with.
///
/// Stripping a second time therefore removes nothing.
pub proof fn stripping_is_complete(id: Seq<char>)
    ensures
        packaging_of(unpackaged(id)) is None,
        stripped(unpackaged(id)) is None,
        unpackaged(id).is_prefix_of(id),
    decreases id.len(),
{
    reveal_strlit("-GGUF");
    reveal_strlit("-gguf");
    reveal_strlit("-Imatrix");
    reveal_strlit("-imatrix");
    match packaging_of(id) {
        Some(suffix) => {
            let rest = id.take(id.len() - suffix.len());
            stripping_is_complete(rest);
            assert(unpackaged(rest) =~= id.take(unpackaged(rest).len() as int));
        },
        None => {},
    }
}

spec fn size_char() -> spec_fn(char) -> bool {
    |c: char| text::is_alphanumeric(c) || c == '.'
}

/// A family name in front of a size, behind the owner, is where the family is first found.
proof fn lemma_official_of_official(family: Seq<char>, size: Seq<char>)
    requires
        family.len() > 4,
        family[0] == 'Q',
        family[4] == '3',
        size.len() > 0,
        forall|i: int| 0 <= i < size.len() ==> size_char()(#[trigger] size[i]),
    ensures
        official_in(family, "Qwen/"@ + family + size) == Some("Qwen/"@ + family + size),
{
    reveal_strlit("Qwen/");
    let repo = "Qwen/"@ + family + size;
    assert(repo.skip((5 + family.len()) as int) =~= size);
    text::lemma_prefix_while_all(size, size_char());
    assert(repo.subrange(5, (5 + family.len()) as int) =~= family);
    assert forall|j: int| 0 <= j < 5 implies !#[trigger] text::occurs_at(repo, family, j) by {
        if text::occurs_at(repo, family, j) {
            let part = repo.subrange(j, j + family.len());
            assert(part[0] == repo[j] && part[4] == repo[j + 4]);
        }
    }
    text::lemma_find_is_first(repo, family, 0, 5);
}

/// The newer family is not found in an official name of the older one.
proof fn lemma_no_other_family(size: Seq<char>)
    requires
        forall|i: int| 0 <= i < size.len() ==> size_char()(#[trigger] size[i]),
    ensures
        official_in("Qwen3.5-"@, "Qwen/"@ + "Qwen3-"@ + size) is None,
{
    reveal_strlit("Qwen/");
    reveal_strlit("Qwen3.5-");
    reveal_strlit("Qwen3-");
    let repo = "Qwen/"@ + "Qwen3-"@ + size;
    assert forall|j: int| 0 <= j implies !#[trigger] text::occurs_at(repo, "Qwen3.5-"@, j) by {
        if text::occurs_at(repo, "Qwen3.5-"@, j) {
            let part = repo.subrange(j, j + 8);
            assert(part[0] == repo[j] && part[7] == repo[j + 7]);
            if j + 7 >= 11 {
                assert(repo[j + 7] == size[j + 7 - 11]);
                assert(size_char()(size[j + 7 - 11]));
            }
        }
    }
    text::lemma_find_none(repo, "Qwen3.5-"@, 0);
}

proof fn lemma_official_form(family: Seq<char>, id: Seq<char>) -> (size: Seq<char>)
    requires
        official_in(family, id) is Some,
    ensures
        size.len() > 0,
        forall|i: int| 0 <= i < size.len() ==> size_char()(#[trigger] size[i]),
        official_in(family, id) == Some("Qwen/"@ + family + size),
{
    let rest = id.skip(text::find(id, family)->0 + family.len());
    text::lemma_prefix_while(rest, size_char());
    text::prefix_while(rest, size_char())
}

/// An official repository name points to itself.
pub proof fn official_repo_is_its_own(id: Seq<char>)
    requires
        official_repo(id) is Some,
    ensures
        official_repo(official_repo(id)->0) == official_repo(id),
{
    reveal_strlit("Qwen3.5-");
    reveal_strlit("Qwen3-");
    if official_in("Qwen3.5-"@, id) is Some {
        let size = lemma_official_form("Qwen3.5-"@, id);
        lemma_official_of_official("Qwen3.5-"@, size);
    } else {
        let size = lemma_official_form("Qwen3-"@, id);
        lemma_official_of_official("Qwen3-"@, size);
        lemma_no_other_family(size);
    }
}

proof fn lemma_merged_keeps(base: Seq<Seq<char>>, items: Seq<Seq<char>>)
    requires
        base.no_duplicates(),
    ensures
        merged(base, items).no_duplicates(),
        base.is_prefix_of(merged(base, items)),
        forall|i: int| 0 <= i < items.len() ==> merged(base, items).contains(#[trigger] items[i]),
        forall|x: Seq<char>| #[trigger]
            merged(base, items).contains(x) ==> base.contains(x) || items.contains(x),
    decreases items.len(),
{
    if items.len() > 0 {
        let before = merged(base, items.drop_last());
        let after = merged(base, items);
        lemma_merged_keeps(base, items.drop_last());
        assert(after.len() > before.len() ==> after[before.len() as int] == items.last());
        assert forall|i: int| 0 <= i < items.len() implies after.contains(#[trigger] items[i]) by {
            if i < items.len() - 1 {
                assert(items.drop_last()[i] == items[i]);
                let k = choose|k: int| 0 <= k < before.len() && before[k] == items[i];
                assert(after[k] == items[i]);
            }
        }
        assert forall|x: Seq<char>| #[trigger] after.contains(x) implies base.contains(x)
            || items.contains(x) by {
            let k = choose|k: int| 0 <= k < after.len() && after[k] == x;
            if k < before.len() {
                assert(before[k] == x);
                assert(before.contains(x));
                if items.drop_last().contains(x) {
                    let m = choose|m: int|
                        0 <= m < items.drop_last().len() && items.drop_last()[m] == x;
                    assert(items[m] == x);
                }
            } else {
                assert(items[items.len() - 1] == x);
            }
        }
    }
}

/// The tokenizer candidates are distinct, begin with the requested name, and are exactly the
/// listed repositories.
pub proof fn candidates_are_the_listed_repos(requested: Seq<char>, source: ModelSource)
    ensures
        ({
            let all = tokenizer_repos(requested, source);
            let candidates = merged(Seq::empty(), all);
            &&& candidates.no_duplicates()
            &&& candidates.len() > 0
            &&& candidates[0] == requested
            &&& forall|x: Seq<char>| #[trigger] candidates.contains(x) <==> all.contains(x)
        }),
{
    let all = tokenizer_repos(requested, source);
    let none = Seq::<Seq<char>>::empty();
    lemma_merged_keeps(none, all);
    assert(all[0] == requested);
    lemma_merged_one(none, requested);
    assert(with_new(none, requested) =~= seq![requested]);
    assert(all =~= seq![requested] + all.drop_first());
    lemma_merged_concat(none, seq![requested], all.drop_first());
    assert(seq![requested].no_duplicates());
    lemma_merged_keeps(seq![requested], all.drop_first());
    assert(merged(none, all)[0] == requested);
    assert forall|x: Seq<char>| all.contains(x) implies #[trigger] merged(none, all).contains(
        x,
    ) by {
        let k = choose|k: int| 0 <= k < all.len() && all[k] == x;
        assert(merged(none, all).contains(all[k]));
    }
}

/// What to say where none of the candidates has a tokenizer.
pub fn no_tokenizer(candidates: &Vec<String>) -> (r: String)
    ensures
        r@ == "failed to fetch tokenizer.json from any candidate repo: "@ + text::joined(
            text::views(candidates@),
            ", "@,
        ),
{
    let list = text::join(candidates, ", ");
    text::concat("failed to fetch tokenizer.json from any candidate repo: ", list.as_str())
}

/// Stripping takes off each of the four packaging suffixes, however many stand behind one another,
/// and nothing else: a name that ends with none of them is left as it is.
pub proof fn packaging_suffixes_are_taken_off(id: Seq<char>)
    ensures
        stripped(id + "-GGUF"@) == Some(unpackaged(id)),
        stripped(id + "-gguf"@) == Some(unpackaged(id)),
        stripped(id + "-Imatrix"@) == Some(unpackaged(id)),
        stripped(id + "-imatrix"@) == Some(unpackaged(id)),
        !"-GGUF"@.is_suffix_of(id) && !"-gguf"@.is_suffix_of(id) && !"-Imatrix"@.is_suffix_of(id)
            && !"-imatrix"@.is_suffix_of(id) ==> unpackaged(id) == id && stripped(id) is None,
        stripped(id) is Some <==> "-GGUF"@.is_suffix_of(id) || "-gguf"@.is_suffix_of(id)
            || "-Imatrix"@.is_suffix_of(id) || "-imatrix"@.is_suffix_of(id),
{
    reveal_strlit("-GGUF");
    reveal_strlit("-gguf");
    reveal_strlit("-Imatrix");
    reveal_strlit("-imatrix");
    lemma_suffix_taken_off(id, "-GGUF"@);
    lemma_suffix_taken_off(id, "-gguf"@);
    lemma_suffix_taken_off(id, "-Imatrix"@);
    lemma_suffix_taken_off(id, "-imatrix"@);
}

proof fn lemma_suffix_taken_off(id: Seq<char>, suffix: Seq<char>)
    requires
        suffix == "-GGUF"@ || suffix == "-gguf"@ || suffix == "-Imatrix"@ || suffix == "-imatrix"@,
    ensures
        stripped(id + suffix) == Some(unpackaged(id)),
{
    reveal_strlit("-GGUF");
    reveal_strlit("-gguf");
    reveal_strlit("-Imatrix");
    reveal_strlit("-imatrix");
    let whole = id + suffix;
    assert(whole.subrange(whole.len() - suffix.len(), whole.len() as int) =~= suffix);
    assert(suffix.is_suffix_of(whole));
    let found = packaging_of(whole)->0;
    assert(found.is_suffix_of(whole));
    assert(found =~= suffix) by {
        if found != suffix {
            let (a, b) = (
                whole.subrange(whole.len() - found.len(), whole.len() as int),
                whole.subrange(whole.len() - suffix.len(), whole.len() as int),
            );
            assert(a == found && b == suffix);
            assert(a.last() == b.last());
            assert(a[a.len() - 2] == b[b.len() - 2]);
            assert(a[a.len() - 5] == b[b.len() - 5]);
            assert(found.len() == suffix.len() ==> a[1] == b[1]);
        }
    }
    assert(whole.take(whole.len() - suffix.len()) =~= id);
}

/// An official repository is the owner's name in front of a family and a size that stand behind one
/// another in the name: the first place of the family, and all letters, digits and dots behind it.
pub proof fn official_repo_names_family_and_size(family: Seq<char>, id: Seq<char>)
    requires
        official_in(family, id) is Some,
    ensures
        exists|before: Seq<char>, size: Seq<char>, after: Seq<char>|
            {
                &&& id == #[trigger] (before + family + size + after)
                &&& official_in(family, id) == Some("Qwen/"@ + family + size)
                &&& size.len() > 0
                &&& forall|k: int|
                    0 <= k < size.len() ==> text::is_alphanumeric(#[trigger] size[k]) || size[k]
                        == '.'
                &&& after.len() > 0 ==> !text::is_alphanumeric(after[0]) && after[0] != '.'
                &&& forall|k: int|
                    0 <= k < before.len() ==> !#[trigger] text::occurs_at(id, family, k)
            },
{
    let start = text::find(id, family)->0;
    text::found_is_the_first_occurrence(id, family, 0);
    let rest = id.skip(start + family.len());
    let keep = |c: char| text::is_alphanumeric(c) || c == '.';
    text::lemma_prefix_while(rest, keep);
    let size = text::prefix_while(rest, keep);
    let before = id.take(start);
    let after = rest.skip(size.len() as int);
    assert(id.subrange(start, start + family.len()) =~= family);
    assert(rest =~= size + after);
    assert(id =~= before + family + size + after);
    assert forall|k: int| 0 <= k < size.len() implies text::is_alphanumeric(#[trigger] size[k])
        || size[k] == '.' by {
        assert(keep(size[k]));
    }
    if after.len() > 0 {
        assert(after[0] == rest[size.len() as int]);
        assert(!keep(rest[size.len() as int]));
    }
}

/// The newer family is looked for first, and the older one only where the newer one gives nothing.
pub proof fn newer_family_comes_first(id: Seq<char>)
    ensures
        official_in("Qwen3.5-"@, id) is Some ==> official_repo(id) == official_in("Qwen3.5-"@, id),
        official_in("Qwen3.5-"@, id) is None ==> official_repo(id) == official_in("Qwen3-"@, id),
{
}

/// The repositories that may hold a tokenizer: the requested one and the one that was loaded, each
/// with the official repository that its name points to; and for a quantized model the same for the
/// names without their packaging.
pub proof fn repositories_that_may_hold_a_tokenizer(
    requested: Seq<char>,
    source: ModelSource,
    x: Seq<char>,
)
    ensures
        ({
            let (repo, quantized) = match source {
                ModelSource::Dense { repo_id } => (repo_id@, false),
                ModelSource::Quantized { repo_id } => (repo_id@, true),
            };
            let bare = |id: Seq<char>|
                match stripped(id) {
                    Some(name) => x == name || official_repo(name) == Some(x),
                    None => false,
                };
            tokenizer_repos(requested, source).contains(x) <==> {
                ||| x == requested
                ||| official_repo(requested) == Some(x)
                ||| x == repo
                ||| official_repo(repo) == Some(x)
                ||| quantized && (bare(requested) || bare(repo))
            }
        }),
{
    let repo = match source {
        ModelSource::Dense { repo_id } => repo_id@,
        ModelSource::Quantized { repo_id } => repo_id@,
    };
    lemma_named_repos(requested, x);
    lemma_named_repos(repo, x);
    lemma_stripped_repos(requested, x);
    lemma_stripped_repos(repo, x);
    let a = named_repos(requested) + named_repos(repo);
    lemma_either_contains(named_repos(requested), named_repos(repo), x);
    lemma_either_contains(a, stripped_repos(requested), x);
    lemma_either_contains(a + stripped_repos(requested), stripped_repos(repo), x);
}

proof fn lemma_either_contains(a: Seq<Seq<char>>, b: Seq<Seq<char>>, x: Seq<char>)
    ensures
        (a + b).contains(x) <==> a.contains(x) || b.contains(x),
{
    if a.contains(x) {
        let k = choose|k: int| 0 <= k < a.len() && a[k] == x;
        assert((a + b)[k] == x);
    }
    if b.contains(x) {
        let k = choose|k: int| 0 <= k < b.len() && b[k] == x;
        assert((a + b)[a.len() + k] == x);
    }
    if (a + b).contains(x) {
        let k = choose|k: int| 0 <= k < (a + b).len() && (a + b)[k] == x;
        if k < a.len() {
            assert(a[k] == x);
        } else {
            assert(b[k - a.len()] == x);
        }
    }
}

proof fn lemma_named_repos(id: Seq<char>, x: Seq<char>)
    ensures
        named_repos(id).contains(x) <==> x == id || official_repo(id) == Some(x),
{
    let all = named_repos(id);
    assert(all[0] == id);
    if let Some(official) = official_repo(id) {
        assert(all[1] == official);
    }
}

proof fn lemma_stripped_repos(id: Seq<char>, x: Seq<char>)
    ensures
        stripped_repos(id).contains(x) <==> (stripped(id) matches Some(name) && (x == name
            || official_repo(name) == Some(x))),
{
    let all = stripped_repos(id);
    if let Some(name) = stripped(id) {
        match official_repo(name) {
            Some(official) => {
                assert(all[0] == official);
                assert(all[1] == name);
            },
            None => {
                assert(all[0] == name);
            },
        }
    }
}

/// In which order tokenizers are looked for. The requested name comes first, and right behind it
/// the official repository that it points to; then the name that was loaded, in the same way. The
/// names without packaging come last, each behind its official repository.
pub proof fn tokenizers_are_looked_for_in_order(requested: Seq<char>, source: ModelSource)
    ensures
        ({
            let all = tokenizer_repos(requested, source);
            let (repo, quantized) = match source {
                ModelSource::Dense { repo_id } => (repo_id@, false),
                ModelSource::Quantized { repo_id } => (repo_id@, true),
            };
            let r = if official_repo(requested) is Some {
                2int
            } else {
                1
            };
            let n = r + (if official_repo(repo) is Some {
                2int
            } else {
                1
            });
            &&& all[0] == requested
            &&& official_repo(requested) matches Some(official) ==> all[1] == official
            &&& all[r] == repo
            &&& official_repo(repo) matches Some(official) ==> all[r + 1] == official
            &&& !quantized ==> all.len() == n
            &&& quantized ==> (stripped(requested) matches Some(name) ==> (match official_repo(name) {
                Some(official) => all[n] == official && all[n + 1] == name,
                None => all[n] == name,
            }))
            &&& quantized ==> (stripped(repo) matches Some(name) ==> all.last() == name && (
            official_repo(name) matches Some(official) ==> all[all.len() - 2] == official))
        }),
{
}

/// A name in which a family is followed by a size points to the official repository of that family
/// and size; one in which nothing of a size follows points to none.
pub proof fn family_and_size_point_to_the_official_repo(
    before: Seq<char>,
    family: Seq<char>,
    size: Seq<char>,
    after: Seq<char>,
)
    requires
        forall|k: int|
            0 <= k < before.len() ==> !#[trigger] text::occurs_at(
                before + family + size + after,
                family,
                k,
            ),
        forall|k: int|
            0 <= k < size.len() ==> text::is_alphanumeric(#[trigger] size[k]) || size[k] == '.',
        after.len() > 0 ==> !text::is_alphanumeric(after[0]) && after[0] != '.',
    ensures
        official_in(family, before + family + size + after) == (if size.len() > 0 {
            Some("Qwen/"@ + family + size)
        } else {
            None
        }),
{
    let id = before + family + size + after;
    let at = before.len() as int;
    assert(id.subrange(at, at + family.len()) =~= family);
    text::lemma_find_is_first(id, family, 0, at);
    let rest = id.skip(at + family.len());
    assert(rest =~= size + after);
    let keep = |c: char| text::is_alphanumeric(c) || c == '.';
    text::lemma_prefix_while(rest, keep);
    let found = text::prefix_while(rest, keep);
    if found.len() < size.len() {
        assert(rest[found.len() as int] == size[found.len() as int]);
        assert(keep(rest[found.len() as int]));
    }
    if found.len() > size.len() {
        assert(found[size.len() as int] == rest[size.len() as int]);
        assert(rest[size.len() as int] == after[0]);
        assert(keep(found[size.len() as int]));
    }
    assert(found =~= size);
}

/// Candidates come in the order of the repositories: those of the first repositories stand before
/// what later ones add, and a repository that is already there adds nothing.
pub proof fn candidates_keep_the_order(a: Seq<Seq<char>>, b: Seq<Seq<char>>, x: Seq<char>)
    ensures
        merged(Seq::empty(), a).is_prefix_of(merged(Seq::empty(), a + b)),
        a.contains(x) ==> merged(Seq::empty(), a.push(x)) == merged(Seq::empty(), a),
        !a.contains(x) ==> merged(Seq::empty(), a.push(x)) == merged(Seq::empty(), a).push(x),
{
    let none = Seq::<Seq<char>>::empty();
    lemma_merged_keeps(none, a);
    lemma_merged_concat(none, a, b);
    lemma_merged_keeps(merged(none, a), b);
    assert(a.push(x).drop_last() =~= a);
    if a.contains(x) {
        let k = choose|k: int| 0 <= k < a.len() && a[k] == x;
        assert(merged(none, a).contains(a[k]));
    }
}

}

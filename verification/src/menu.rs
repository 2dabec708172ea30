//! The single-key menu that asks which GGUF file of a repository to load.
use crate::text;
use vstd::prelude::*;

verus! {

/// The keys of the menu, in the order in which they are given out.
pub open spec fn menu_keys() -> Seq<char> {
    "1234567890abcdefghijklmnopqrstuvwxyz"@
}

/// More options than the menu has keys.
#[derive(Debug, Clone, Copy, PartialEq, Eq, Structural)]
pub struct TooManyOptions {
    pub count: usize,
}

impl TooManyOptions {
    /// The error in words.
    pub fn message(&self) -> (r: String)
        ensures
            r@ == "too many gguf files to display in a single-key menu ("@ + text::decimal(
                self.count as nat,
            ) + ")"@,
    {
        let mut r = "too many gguf files to display in a single-key menu (".to_owned();
        text::push_decimal(&mut r, self.count as u64);
        r.append(")");
        r
    }
}

/// The position of the first of `names` that ends with `suffix`.
pub open spec fn first_ending_from(names: Seq<Seq<char>>, suffix: Seq<char>, from: int) -> Option<
    int,
>
    decreases names.len() - from,
{
    if from < 0 || from >= names.len() {
        None
    } else if suffix.is_suffix_of(names[from]) {
        Some(from)
    } else {
        first_ending_from(names, suffix, from + 1)
    }
}

/// The option that the menu marks as the default.
pub open spec fn preferred_index(names: Seq<Seq<char>>) -> int {
    match first_ending_from(names, "Q4_K_M.gguf"@, 0) {
        Some(i) => i,
        None => match first_ending_from(names, "Q4_K_S.gguf"@, 0) {
            Some(i) => i,
            None => match first_ending_from(names, "Q4_0.gguf"@, 0) {
                Some(i) => i,
                None => 0,
            },
        },
    }
}

/// The files without the vision projectors.
pub open spec fn text_models(files: Seq<Seq<char>>) -> Seq<Seq<char>> {
    files.filter(|name: Seq<char>| !"mmproj-"@.is_prefix_of(name))
}

/// The files that the menu offers: the text models, or all files where there is none.
pub open spec fn offered(files: Seq<Seq<char>>) -> Seq<Seq<char>> {
    if text_models(files).len() == 0 {
        files
    } else {
        text_models(files)
    }
}

/// The quotient of `a` and `b`, rounded to the nearest integer, halves to the even one.
pub open spec fn rounded_quotient(a: nat, b: nat) -> nat {
    let q = a / b;
    let r = a % b;
    if 2 * r < b {
        q
    } else if 2 * r > b {
        q + 1
    } else if q % 2 == 0 {
        q
    } else {
        q + 1
    }
}

/// The spacing, starting from `unit`, at which a 53-bit significand holds `n`.
pub open spec fn spacing(n: nat, unit: nat) -> nat
    decreases n - unit,
{
    if unit == 0 || n < 0x20_0000_0000_0000 * unit {
        unit
    } else {
        spacing(n, 2 * unit)
    }
}

/// `n` as a number with a significand of 53 bits.
pub open spec fn nearest_double(n: nat) -> nat {
    rounded_quotient(n, spacing(n, 1)) * spacing(n, 1)
}

/// The number of bytes in the unit of position `unit`.
pub open spec fn unit_bytes(unit: int) -> nat {
    if unit == 0 {
        1
    } else if unit == 1 {
        0x400
    } else if unit == 2 {
        0x10_0000
    } else if unit == 3 {
        0x4000_0000
    } else {
        0x100_0000_0000
    }
}

pub open spec fn unit_name(unit: int) -> Seq<char> {
    if unit == 0 {
        "B"@
    } else if unit == 1 {
        "KiB"@
    } else if unit == 2 {
        "MiB"@
    } else if unit == 3 {
        "GiB"@
    } else {
        "TiB"@
    }
}

/// The largest unit of which `value` bytes hold at least one.
pub open spec fn unit_for(value: nat) -> int {
    if value < unit_bytes(1) {
        0
    } else if value < unit_bytes(2) {
        1
    } else if value < unit_bytes(3) {
        2
    } else if value < unit_bytes(4) {
        3
    } else {
        4
    }
}

/// A number of hundredths with two decimal places.
pub open spec fn two_places(hundredths: nat) -> Seq<char> {
    text::decimal(hundredths / 100) + "."@ + seq![
        text::digit(((hundredths % 100) / 10) as int),
        text::digit((hundredths % 10) as int),
    ]
}

/// A size in bytes, in the largest unit of which there is at least one.
///
/// Whole bytes are written as they are. Any larger unit has two decimal places, rounded from the
/// size as a double-precision number.
pub open spec fn size_text(size: nat) -> Seq<char> {
    let value = nearest_double(size);
    let unit = unit_for(value);
    if unit == 0 {
        text::decimal(size) + " "@ + unit_name(0)
    } else {
        two_places(rounded_quotient(value * 100, unit_bytes(unit))) + " "@ + unit_name(unit)
    }
}

/// The size recorded for `name`: that of the last entry under this name.
pub open spec fn recorded_size(sizes: Seq<(String, Option<u64>)>, name: Seq<char>) -> Option<u64>
    decreases sizes.len(),
{
    if sizes.len() == 0 {
        None
    } else if sizes.last().0@ == name {
        sizes.last().1
    } else {
        recorded_size(sizes.drop_last(), name)
    }
}

/// The labels of the menu options: one key each.
pub fn selection_labels(count: usize) -> (r: Result<Vec<String>, TooManyOptions>)
    ensures
        r is Ok <==> count <= menu_keys().len(),
        r matches Ok(labels) ==> {
            &&& labels@.len() == count
            &&& forall|i: int| 0 <= i < count ==> (#[trigger] labels@[i])@ == seq![menu_keys()[i]]
        },
        r matches Err(e) ==> e.count == count,
{
    let keys = "1234567890abcdefghijklmnopqrstuvwxyz";
    if count > keys.unicode_len() {
        return Err(TooManyOptions { count });
    }
    let mut labels: Vec<String> = Vec::new();
    let mut i: usize = 0;
    while i < count
        invariant
            keys@ == menu_keys(),
            0 <= i <= count <= keys@.len(),
            labels@.len() == i,
            forall|k: int| 0 <= k < i ==> (#[trigger] labels@[k])@ == seq![menu_keys()[k]],
        decreases count - i,
    {
        labels.push(keys.substring_char(i, i + 1).to_owned());
        assert(keys@.subrange(i as int, i + 1) =~= seq![menu_keys()[i as int]]);
        i = i + 1;
    }
    Ok(labels)
}

fn first_ending(names: &Vec<String>, suffix: &str) -> (r: Option<usize>)
    ensures
        match first_ending_from(text::views(names@), suffix@, 0) {
            Some(i) => r matches Some(found) && found == i && i < names@.len(),
            None => r is None,
        },
{
    let mut i: usize = 0;
    while i < names.len()
        invariant
            0 <= i <= names@.len(),
            first_ending_from(text::views(names@), suffix@, 0) == first_ending_from(
                text::views(names@),
                suffix@,
                i as int,
            ),
        decreases names@.len() - i,
    {
        if text::has_suffix(names[i].as_str(), suffix) {
            return Some(i);
        }
        i = i + 1;
    }
    None
}

/// The option that the menu marks as the default.
pub fn preferred_gguf_index(options: &Vec<String>) -> (r: usize)
    ensures
        r == preferred_index(text::views(options@)),
        options@.len() > 0 ==> r < options@.len(),
{
    match first_ending(options, "Q4_K_M.gguf") {
        Some(i) => i,
        None => match first_ending(options, "Q4_K_S.gguf") {
            Some(i) => i,
            None => match first_ending(options, "Q4_0.gguf") {
                Some(i) => i,
                None => 0,
            },
        },
    }
}

/// Pairs each offered file with the size that was fetched for it.
pub fn fetch_gguf_sizes(option_names: &Vec<String>, fetched: &Vec<Option<u64>>) -> (r: Vec<
    (String, Option<u64>),
>)
    requires
        option_names@.len() == fetched@.len(),
    ensures
        r@.len() == option_names@.len(),
        forall|i: int|
            0 <= i < r@.len() ==> (#[trigger] r@[i]).0@ == option_names@[i]@ && r@[i].1
                == fetched@[i],
{
    let mut r: Vec<(String, Option<u64>)> = Vec::new();
    let mut i: usize = 0;
    while i < option_names.len()
        invariant
            option_names@.len() == fetched@.len(),
            0 <= i <= option_names@.len(),
            r@.len() == i,
            forall|k: int|
                0 <= k < i ==> (#[trigger] r@[k]).0@ == option_names@[k]@ && r@[k].1
                    == fetched@[k],
        decreases option_names@.len() - i,
    {
        r.push((option_names[i].clone(), fetched[i]));
        i = i + 1;
    }
    r
}

/// The size recorded for a file.
pub fn size_of_file(sizes: &Vec<(String, Option<u64>)>, name: &str) -> (r: Option<u64>)
    ensures
        r == recorded_size(sizes@, name@),
{
    let mut i: usize = sizes.len();
    assert(sizes@.take(i as int) =~= sizes@);
    while i > 0
        invariant
            0 <= i <= sizes@.len(),
            recorded_size(sizes@, name@) == recorded_size(sizes@.take(i as int), name@),
        decreases i,
    {
        i = i - 1;
        assert(sizes@.take(i + 1).drop_last() =~= sizes@.take(i as int));
        if text::same_text(sizes[i].0.as_str(), name) {
            return sizes[i].1;
        }
    }
    None
}

fn round_quotient(a: u128, b: u128) -> (r: u128)
    requires
        0 < b < 0x1_0000_0000_0000_0000,
    ensures
        r == rounded_quotient(a as nat, b as nat),
{
    let q: u128 = a / b;
    let rest: u128 = a % b;
    assert(2 * rest > b ==> q < u128::MAX) by (nonlinear_arith)
        requires
            q == a / b,
            rest == a % b,
            b > 0,
            a <= u128::MAX,
    ;
    assert(2 * rest == b && q % 2 == 1 ==> q < u128::MAX) by (nonlinear_arith)
        requires
            q == a / b,
            rest == a % b,
            b > 0,
            a <= u128::MAX,
    ;
    if 2 * rest < b {
        q
    } else if 2 * rest > b {
        q + 1
    } else if q % 2 == 0 {
        q
    } else {
        q + 1
    }
}

proof fn lemma_rounding_up_stays_close(a: nat, b: nat)
    requires
        b > 0,
    ensures
        rounded_quotient(a, b) * b <= a + b,
{
    let q = a / b;
    assert(q * b <= a) by (nonlinear_arith)
        requires
            q == a / b,
            b > 0,
    ;
    assert((q + 1) * b == q * b + b) by (nonlinear_arith);
}

/// The size as a double-precision number holds it.
fn round_to_double(size: u64) -> (r: u128)
    ensures
        r == nearest_double(size as nat),
        r <= 0x1_0000_0000_0000_1000,
        size < 1024 ==> r == size,
{
    let n: u128 = size as u128;
    let mut unit: u128 = 1;
    while n >= 0x20_0000_0000_0000 * unit
        invariant
            n == size,
            1 <= unit < 4096,
            spacing(n as nat, 1) == spacing(n as nat, unit as nat),
        decreases 4096 - unit,
    {
        unit = 2 * unit;
    }
    let q = round_quotient(n, unit);
    proof {
        lemma_rounding_up_stays_close(n as nat, unit as nat);
        if n < 1024 {
            assert(spacing(n as nat, 1) == 1);
            assert(rounded_quotient(n as nat, 1) == n);
            assert(q * unit == q) by (nonlinear_arith)
                requires
                    unit == 1,
            ;
        }
    }
    q * unit
}

/// A size in bytes for people to read.
pub fn format_bytes(size: u64) -> (r: String)
    ensures
        r@ == size_text(size as nat),
{
    let value = round_to_double(size);
    let mut r = String::new();
    if value < 0x400 {
        text::push_decimal(&mut r, size);
        r.append(" ");
        r.append("B");
        proof {
            if size >= 1024 {
                lemma_large_size_stays_large(size);
            }
            assert(Seq::<char>::empty() + text::decimal(size as nat) =~= text::decimal(
                size as nat,
            ));
        }
        return r;
    }
    let unit: u128 = if value < 0x10_0000 {
        0x400
    } else if value < 0x4000_0000 {
        0x10_0000
    } else if value < 0x100_0000_0000 {
        0x4000_0000
    } else {
        0x100_0000_0000
    };
    let hundredths = round_quotient(value * 100, unit);
    proof {
        lemma_rounding_up_stays_close((value * 100) as nat, unit as nat);
        let h = hundredths as int;
        let v = value as int;
        let u = unit as int;
        assert(h < 0x1_0000_0000_0000_0000) by (nonlinear_arith)
            requires
                h * u <= v * 100 + u,
                u >= 0x400,
                v < 0x10_0000 * u || v <= 0x1_0000_0000_0000_1000 && u == 0x100_0000_0000,
                v >= 0,
                h >= 0,
        ;
        reveal_strlit("0123456789");
    }
    let whole: u64 = (hundredths / 100) as u64;
    let part: u64 = (hundredths % 100) as u64;
    text::push_decimal(&mut r, whole);
    assert(r@ =~= text::decimal(hundredths as nat / 100));
    r.append(".");
    text::push_decimal(&mut r, part / 10);
    text::push_decimal(&mut r, part % 10);
    assert(r@ =~= two_places(hundredths as nat));
    r.append(" ");
    r.append(
        if value < 0x10_0000 {
            "KiB"
        } else if value < 0x4000_0000 {
            "MiB"
        } else if value < 0x100_0000_0000 {
            "GiB"
        } else {
            "TiB"
        },
    );
    r
}

proof fn lemma_large_size_stays_large(size: u64)
    requires
        size >= 1024,
    ensures
        nearest_double(size as nat) >= 1024,
{
    let n = size as nat;
    if n < 0x20_0000_0000_0000 {
        assert(spacing(n, 1) == 1);
        assert(rounded_quotient(n, 1) == n);
    } else {
        lemma_spacing_divides(n, 1);
        let u = spacing(n, 1);
        let q = n / u;
        assert(q * u + u > n) by (nonlinear_arith)
            requires
                q == n / u,
                u > 0,
        ;
        assert(rounded_quotient(n, u) >= q);
        assert(rounded_quotient(n, u) * u >= q * u) by (nonlinear_arith)
            requires
                rounded_quotient(n, u) >= q,
                u > 0,
        ;
    }
}

/// The spacing is no more than half of a number that needs more than 53 bits.
proof fn lemma_spacing_divides(n: nat, unit: nat)
    requires
        unit > 0,
        n >= 0x20_0000_0000_0000,
        2 * unit <= n,
    ensures
        0 < spacing(n, unit),
        2 * spacing(n, unit) <= n,
    decreases n - unit,
{
    if n >= 0x20_0000_0000_0000 * unit {
        lemma_spacing_divides(n, 2 * unit);
    }
}

/// What a key press is to the menu.
#[derive(Debug, Clone, Copy, PartialEq, Eq, Structural)]
pub enum MenuKey {
    /// A character key.
    Char(char),
    /// The escape key.
    Esc,
    /// Any other key or event.
    Other,
}

/// What the menu does with a key press.
#[derive(Debug, Clone, Copy, PartialEq, Eq, Structural)]
pub enum MenuAction {
    /// The option of this position was chosen.
    Select(usize),
    /// The choice was cancelled.
    Cancel,
    /// The key means nothing: wait for the next.
    Ignore,
}

/// `c` with an ASCII capital turned into the small letter.
pub open spec fn lowered(c: char) -> char {
    if 'A' <= c <= 'Z' {
        (c as u32 + 32) as char
    } else {
        c
    }
}

/// The files on offer, each with its key.
#[derive(Debug)]
pub struct GgufMenu {
    /// The files on offer.
    pub options: Vec<String>,
    /// The key of each option.
    pub labels: Vec<String>,
    /// The option that is marked as the default.
    pub preferred: usize,
}

impl GgufMenu {
    /// Each option has its own key, and the default is one of the options.
    pub open spec fn well_formed(&self) -> bool {
        &&& self.options@.len() <= menu_keys().len()
        &&& self.labels@.len() == self.options@.len()
        &&& forall|i: int|
            0 <= i < self.labels@.len() ==> (#[trigger] self.labels@[i])@ == seq![menu_keys()[i]]
        &&& self.preferred == preferred_index(text::views(self.options@))
    }

    /// What the menu does on `key`.
    pub open spec fn reaction(&self, key: MenuKey) -> MenuAction {
        match key {
            MenuKey::Char(c) => if exists|i: int|
                0 <= i < self.options@.len() && menu_keys()[i] == lowered(c) {
                MenuAction::Select(
                    (choose|i: int| 0 <= i < self.options@.len() && menu_keys()[i] == lowered(c))
                        as usize,
                )
            } else {
                MenuAction::Ignore
            },
            MenuKey::Esc => MenuAction::Cancel,
            MenuKey::Other => MenuAction::Ignore,
        }
    }

    /// The line that shows the option of position `i`.
    pub open spec fn line_text(&self, i: int, sizes: Seq<(String, Option<u64>)>) -> Seq<char> {
        let size = match recorded_size(sizes, self.options@[i]@) {
            Some(n) => size_text(n as nat),
            None => "-"@,
        };
        "  ["@ + self.labels@[i]@ + "] "@ + text::padded_left(size, 8) + "  "@ + self.options@[i]@
            + (if i == self.preferred {
            " (default)"@
        } else {
            ""@
        })
    }

    /// The menu for these GGUF files; an error when there are more options than keys.
    pub fn new(gguf_files: &Vec<String>) -> (r: Result<GgufMenu, TooManyOptions>)
        ensures
            r is Ok <==> offered(text::views(gguf_files@)).len() <= menu_keys().len(),
            r matches Ok(menu) ==> menu.well_formed() && text::views(menu.options@) == offered(
                text::views(gguf_files@),
            ),
            r matches Err(e) ==> e.count == offered(text::views(gguf_files@)).len(),
    {
        let options = offered_files(gguf_files);
        assert(text::views(options@).len() == options@.len());
        match selection_labels(options.len()) {
            Ok(labels) => {
                let preferred = preferred_gguf_index(&options);
                Ok(GgufMenu { options, labels, preferred })
            },
            Err(e) => Err(e),
        }
    }

    /// The line that shows one option: its key, its size, its name and whether it is the default.
    pub fn line(&self, index: usize, sizes: &Vec<(String, Option<u64>)>) -> (r: String)
        requires
            self.well_formed(),
            index < self.options@.len(),
        ensures
            r@ == self.line_text(index as int, sizes@),
    {
        let size = match size_of_file(sizes, self.options[index].as_str()) {
            Some(n) => format_bytes(n),
            None => "-".to_owned(),
        };
        let mut r = "  [".to_owned();
        r.append(self.labels[index].as_str());
        r.append("] ");
        text::push_padded(&mut r, size.as_str(), 8);
        r.append("  ");
        r.append(self.options[index].as_str());
        r.append(
            if index == self.preferred {
                " (default)"
            } else {
                ""
            },
        );
        r
    }

    /// What the menu does with a key press.
    pub fn on_key(&self, key: MenuKey) -> (r: MenuAction)
        requires
            self.well_formed(),
        ensures
            r == self.reaction(key),
            r matches MenuAction::Select(i) ==> i < self.options@.len(),
    {
        match key {
            MenuKey::Char(c) => {
                let wanted = to_lower(c);
                let mut i: usize = 0;
                while i < self.labels.len()
                    invariant
                        self.well_formed(),
                        wanted == lowered(c),
                        key == MenuKey::Char(c),
                        0 <= i <= self.labels@.len(),
                        forall|k: int| 0 <= k < i ==> #[trigger] menu_keys()[k] != wanted,
                    decreases self.labels@.len() - i,
                {
                    assert(self.labels@[i as int]@ == seq![menu_keys()[i as int]]);
                    if self.labels[i].as_str().get_char(0) == wanted {
                        proof {
                            let chosen = choose|k: int|
                                0 <= k < self.options@.len() && menu_keys()[k] == lowered(c);
                            assert(menu_keys()[i as int] == lowered(c));
                            lemma_keys_distinct(i as int, chosen);
                        }
                        return MenuAction::Select(i);
                    }
                    i = i + 1;
                }
                MenuAction::Ignore
            },
            MenuKey::Esc => MenuAction::Cancel,
            MenuKey::Other => MenuAction::Ignore,
        }
    }
}

fn to_lower(c: char) -> (r: char)
    ensures
        r == lowered(c),
{
    if 'A' <= c && c <= 'Z' {
        let code: u8 = c as u8 + 32;
        code as char
    } else {
        c
    }
}

fn offered_files(files: &Vec<String>) -> (r: Vec<String>)
    ensures
        text::views(r@) == offered(text::views(files@)),
{
    let mut r: Vec<String> = Vec::new();
    let ghost all = text::views(files@);
    let ghost wanted = |name: Seq<char>| !"mmproj-"@.is_prefix_of(name);
    let mut i: usize = 0;
    reveal(Seq::filter);
    assert(all.take(0) =~= Seq::empty());
    assert(text::views(r@) =~= Seq::empty());
    while i < files.len()
        invariant
            0 <= i <= files@.len(),
            all == text::views(files@),
            wanted == (|name: Seq<char>| !"mmproj-"@.is_prefix_of(name)),
            text::views(r@) == all.take(i as int).filter(wanted),
        decreases files@.len() - i,
    {
        reveal(Seq::filter);
        assert(all.take(i + 1).drop_last() =~= all.take(i as int));
        let ghost sofar = r@;
        if !text::has_prefix(files[i].as_str(), "mmproj-") {
            r.push(files[i].clone());
            assert(text::views(r@) =~= text::views(sofar).push(all[i as int]));
        }
        i = i + 1;
    }
    assert(all.take(i as int) =~= all);
    assert(text::views(r@).len() == r@.len());
    if r.len() == 0 {
        copy_of(files)
    } else {
        r
    }
}

/// The same strings in a new vector.
pub fn copy_of(items: &Vec<String>) -> (r: Vec<String>)
    ensures
        text::views(r@) == text::views(items@),
{
    let mut r: Vec<String> = Vec::new();
    let mut i: usize = 0;
    while i < items.len()
        invariant
            0 <= i <= items@.len(),
            r@.len() == i,
            forall|k: int| 0 <= k < i ==> (#[trigger] r@[k])@ == items@[k]@,
        decreases items@.len() - i,
    {
        r.push(items[i].clone());
        i = i + 1;
    }
    assert(text::views(r@) =~= text::views(items@));
    r
}

proof fn lemma_keys_distinct(i: int, j: int)
    requires
        0 <= i < menu_keys().len(),
        0 <= j < menu_keys().len(),
        menu_keys()[i] == menu_keys()[j],
    ensures
        i == j,
{
    reveal_strlit("1234567890abcdefghijklmnopqrstuvwxyz");
}

/// Every option of a menu can be chosen: its key selects it and no other option, whether a letter
/// is typed small or as a capital.
pub proof fn every_option_has_a_key(menu: GgufMenu, i: int)
    requires
        menu.well_formed(),
        0 <= i < menu.options@.len(),
    ensures
        menu.reaction(MenuKey::Char(menu_keys()[i])) == MenuAction::Select(i as usize),
        forall|c: char| lowered(c) == menu_keys()[i] ==> #[trigger] menu.reaction(MenuKey::Char(c))
            == MenuAction::Select(i as usize),
{
    reveal_strlit("1234567890abcdefghijklmnopqrstuvwxyz");
    assert(lowered(menu_keys()[i]) == menu_keys()[i]);
    assert forall|c: char| lowered(c) == menu_keys()[i] implies #[trigger] menu.reaction(
        MenuKey::Char(c),
    ) == MenuAction::Select(i as usize) by {
        let chosen = choose|k: int| 0 <= k < menu.options@.len() && menu_keys()[k] == lowered(c);
        assert(menu_keys()[i] == lowered(c));
        lemma_keys_distinct(i, chosen);
    }
}

/// The keys of the menu: the digits from one to nine and then zero, and the small letters behind
/// them.
pub proof fn keys_are_digits_and_then_letters(i: int)
    ensures
        menu_keys().len() == 36,
        0 <= i < 9 ==> menu_keys()[i] as u32 == '1' as u32 + i,
        menu_keys()[9] == '0',
        10 <= i < 36 ==> menu_keys()[i] as u32 == 'a' as u32 + (i - 10),
{
    reveal_strlit("1234567890abcdefghijklmnopqrstuvwxyz");
}

/// A menu selects only by its keys: a character that is none of them means nothing, whether it is
/// small or a capital; the escape key cancels.
pub proof fn other_keys_select_nothing(menu: GgufMenu, c: char)
    requires
        menu.well_formed(),
    ensures
        (forall|i: int| 0 <= i < menu.options@.len() ==> #[trigger] menu_keys()[i] != c && (
        'A' <= c <= 'Z' ==> menu_keys()[i] as u32 != c as u32 + 32)) ==> menu.reaction(
            MenuKey::Char(c),
        ) == MenuAction::Ignore,
        menu.reaction(MenuKey::Esc) == MenuAction::Cancel,
        menu.reaction(MenuKey::Other) == MenuAction::Ignore,
        menu.reaction(MenuKey::Char(c)) != MenuAction::Cancel,
        'A' <= c <= 'Z' ==> menu.reaction(MenuKey::Char(c)) == menu.reaction(
            MenuKey::Char((c as u32 + 32) as char),
        ),
{
    if 'A' <= c <= 'Z' {
        let small = (c as u32 + 32) as char;
        assert(small as u32 == c as u32 + 32);
        assert(lowered(small) == small);
    }
}

/// The position that is found is the first one whose name has the suffix.
proof fn lemma_first_ending(names: Seq<Seq<char>>, suffix: Seq<char>, from: int)
    requires
        0 <= from,
    ensures
        match first_ending_from(names, suffix, from) {
            Some(i) => from <= i < names.len() && suffix.is_suffix_of(names[i]) && forall|k: int|
                from <= k < i ==> !suffix.is_suffix_of(#[trigger] names[k]),
            None => forall|k: int|
                from <= k < names.len() ==> !suffix.is_suffix_of(#[trigger] names[k]),
        },
    decreases names.len() - from,
{
    if from < names.len() && !suffix.is_suffix_of(names[from]) {
        lemma_first_ending(names, suffix, from + 1);
    }
}

/// The default of a menu is the first file of the medium four-bit format; without one the first of
/// the small four-bit format; without one the first of the plain four-bit format; and otherwise the
/// first file.
pub proof fn default_is_the_best_known_format(names: Seq<Seq<char>>)
    ensures
        ({
            let p = preferred_index(names);
            let has = |suffix: Seq<char>, k: int|
                0 <= k < names.len() && suffix.is_suffix_of(names[k]);
            let medium = exists|k: int| #[trigger] has("Q4_K_M.gguf"@, k);
            let small = exists|k: int| #[trigger] has("Q4_K_S.gguf"@, k);
            let plain = exists|k: int| #[trigger] has("Q4_0.gguf"@, k);
            &&& medium ==> has("Q4_K_M.gguf"@, p) && forall|k: int|
                k < p ==> !#[trigger] has("Q4_K_M.gguf"@, k)
            &&& !medium && small ==> has("Q4_K_S.gguf"@, p) && forall|k: int|
                k < p ==> !#[trigger] has("Q4_K_S.gguf"@, k)
            &&& !medium && !small && plain ==> has("Q4_0.gguf"@, p) && forall|k: int|
                k < p ==> !#[trigger] has("Q4_0.gguf"@, k)
            &&& !medium && !small && !plain ==> p == 0
        }),
{
    lemma_first_ending(names, "Q4_K_M.gguf"@, 0);
    lemma_first_ending(names, "Q4_K_S.gguf"@, 0);
    lemma_first_ending(names, "Q4_0.gguf"@, 0);
    let has = |suffix: Seq<char>, k: int| 0 <= k < names.len() && suffix.is_suffix_of(names[k]);
    if let Some(i) = first_ending_from(names, "Q4_K_M.gguf"@, 0) {
        assert(has("Q4_K_M.gguf"@, i));
    } else if let Some(i) = first_ending_from(names, "Q4_K_S.gguf"@, 0) {
        assert(has("Q4_K_S.gguf"@, i));
    } else if let Some(i) = first_ending_from(names, "Q4_0.gguf"@, 0) {
        assert(has("Q4_0.gguf"@, i));
    }
}

/// A menu offers no vision projector where there is anything else, and leaves out nothing else.
/// Where there are only vision projectors it offers them all.
pub proof fn menu_offers_the_text_models(files: Seq<Seq<char>>, x: Seq<char>)
    ensures
        (exists|y: Seq<char>| #[trigger] files.contains(y) && !"mmproj-"@.is_prefix_of(y)) ==> (
        offered(files).contains(x) <==> files.contains(x) && !"mmproj-"@.is_prefix_of(x)),
        !(exists|y: Seq<char>| #[trigger] files.contains(y) && !"mmproj-"@.is_prefix_of(y))
            ==> offered(files) == files,
{
    let wanted = |name: Seq<char>| !"mmproj-"@.is_prefix_of(name);
    let kept = files.filter(wanted);
    if kept.contains(x) {
        files.lemma_filter_contains_rev(wanted, x);
        let k = choose|k: int| 0 <= k < kept.len() && kept[k] == x;
        files.lemma_filter_pred(wanted, k);
    }
    if files.contains(x) && !"mmproj-"@.is_prefix_of(x) {
        let k = choose|k: int| 0 <= k < files.len() && files[k] == x;
        files.lemma_filter_contains(wanted, k);
    }
    if exists|y: Seq<char>| #[trigger] files.contains(y) && !"mmproj-"@.is_prefix_of(y) {
        let y = choose|y: Seq<char>| #[trigger]
            files.contains(y) && !"mmproj-"@.is_prefix_of(y);
        let k = choose|k: int| 0 <= k < files.len() && files[k] == y;
        files.lemma_filter_contains(wanted, k);
        assert(kept.contains(y));
    } else if kept.len() > 0 {
        files.lemma_filter_pred(wanted, 0);
        assert(kept.contains(kept[0]));
        files.lemma_filter_contains_rev(wanted, kept[0]);
        assert(files.contains(kept[0]));
    }
}

/// The size of a file is that of the last entry under its name.
pub proof fn last_recorded_size_counts(
    sizes: Seq<(String, Option<u64>)>,
    name: Seq<char>,
    i: int,
)
    requires
        0 <= i < sizes.len(),
        sizes[i].0@ == name,
        forall|k: int| i < k < sizes.len() ==> (#[trigger] sizes[k]).0@ != name,
    ensures
        recorded_size(sizes, name) == sizes[i].1,
    decreases sizes.len(),
{
    if i < sizes.len() - 1 {
        assert(sizes[sizes.len() - 1].0@ != name);
        let rest = sizes.drop_last();
        assert forall|k: int| i < k < rest.len() implies (#[trigger] rest[k]).0@ != name by {
            assert(sizes[k].0@ != name);
        }
        last_recorded_size_counts(rest, name, i);
    }
}

/// The rounded quotient is nearest to the quotient, and the even one of two that are equally near.
pub proof fn quotients_are_rounded_to_the_nearest(a: nat, b: nat)
    requires
        b > 0,
    ensures
        ({
            let q = rounded_quotient(a, b);
            &&& 2 * (q * b - a) <= b
            &&& 2 * (a - q * b) <= b
            &&& 2 * (q * b - a) == b || 2 * (a - q * b) == b ==> q % 2 == 0
        }),
{
    let q = a / b;
    let r = a % b;
    assert(a == q * b + r && 0 <= r < b) by (nonlinear_arith)
        requires
            q == a / b,
            r == a % b,
            b > 0,
    ;
    assert((q + 1) * b == q * b + b) by (nonlinear_arith);
}

/// A number of up to 53 bits is held as it is.
pub proof fn small_numbers_are_held_exactly(n: nat)
    requires
        n < 0x20_0000_0000_0000,
    ensures
        nearest_double(n) == n,
{
    assert(spacing(n, 1) == 1);
    assert(rounded_quotient(n, 1) == n);
}

/// How a size is written. Below 1024 bytes it is written in bytes; otherwise it has a unit of 1024
/// of the next smaller one, the largest of which there is at least one, and is rounded to the
/// nearest hundredth.
pub proof fn sizes_are_written_in_their_unit(n: nat)
    requires
        n < 0x20_0000_0000_0000,
    ensures
        n < 1024 ==> size_text(n) == text::decimal(n) + " B"@,
        n >= 1024 ==> exists|hundredths: nat, unit: nat, name: Seq<char>|
            {
                &&& size_text(n) == #[trigger] (two_places(hundredths) + name)
                &&& #[trigger] unit_named(unit, name)
                &&& unit <= n
                &&& unit != 0x100_0000_0000 ==> n < 1024 * unit
                &&& 2 * (hundredths * unit - 100 * n) <= unit
                &&& 2 * (100 * n - hundredths * unit) <= unit
            },
{
    small_numbers_are_held_exactly(n);
    reveal_strlit(" ");
    reveal_strlit("B");
    reveal_strlit(" B");
    reveal_strlit("KiB");
    reveal_strlit(" KiB");
    reveal_strlit("MiB");
    reveal_strlit(" MiB");
    reveal_strlit("GiB");
    reveal_strlit(" GiB");
    reveal_strlit("TiB");
    reveal_strlit(" TiB");
    assert(" "@ + "B"@ =~= " B"@);
    assert(" "@ + "KiB"@ =~= " KiB"@);
    assert(" "@ + "MiB"@ =~= " MiB"@);
    assert(" "@ + "GiB"@ =~= " GiB"@);
    assert(" "@ + "TiB"@ =~= " TiB"@);
    let u = unit_for(n);
    if u == 0 {
        assert(size_text(n) =~= text::decimal(n) + (" "@ + "B"@));
    } else {
        let unit = unit_bytes(u);
        let hundredths = rounded_quotient(n * 100, unit);
        let name = " "@ + unit_name(u);
        quotients_are_rounded_to_the_nearest(n * 100, unit);
        assert(size_text(n) =~= two_places(hundredths) + name);
        assert(unit_named(unit, name));
    }
}

/// The units of sizes, and how they are written behind a number.
pub open spec fn unit_named(unit: nat, name: Seq<char>) -> bool {
    ||| unit == 1024 && name == " KiB"@
    ||| unit == 1024 * 1024 && name == " MiB"@
    ||| unit == 1024 * 1024 * 1024 && name == " GiB"@
    ||| unit == 1024 * 1024 * 1024 * 1024 && name == " TiB"@
}

/// A number of hundredths is written as its whole part, a point and two digits, which are read back
/// as the number.
pub proof fn hundredths_are_read_back(n: nat)
    ensures
        ({
            let s = two_places(n);
            let k = s.len() - 3;
            &&& k > 0
            &&& s[k] == '.'
            &&& s.take(k) == text::decimal(n / 100)
            &&& text::is_digit(s[k + 1])
            &&& text::is_digit(s[k + 2])
            &&& text::decimal_value(s.take(k)) * 100 + (s[k + 1] as u32 - '0' as u32) * 10 + (s[k
                + 2] as u32 - '0' as u32) == n
        }),
{
    reveal_strlit(".");
    reveal_strlit("0123456789");
    let s = two_places(n);
    let whole = text::decimal(n / 100);
    text::decimal_is_read_back(n / 100, n / 100);
    text::lemma_decimal(n / 100);
    let k = s.len() - 3;
    assert(s.take(k) =~= whole);
    assert(s[k] == '.');
    let (d, e) = ((n % 100) / 10, n % 10);
    assert(s[k + 1] == text::digit(d as int));
    assert(s[k + 2] == text::digit(e as int));
    assert(n == (n / 100) * 100 + d * 10 + e);
}

/// The line of an option shows its key, its size and its name, and says whether it is the default;
/// a size that is not known is shown as a dash.
pub proof fn line_shows_key_size_and_name(
    menu: GgufMenu,
    i: int,
    sizes: Seq<(String, Option<u64>)>,
)
    requires
        menu.well_formed(),
        0 <= i < menu.options@.len(),
    ensures
        ({
            let name = menu.options@[i]@;
            let size = match recorded_size(sizes, name) {
                Some(n) => size_text(n as nat),
                None => "-"@,
            };
            let shown = Seq::new(
                (if size.len() < 8 {
                    8 - size.len()
                } else {
                    0
                }) as nat,
                |k: int| ' ',
            ) + size;
            let line = "  ["@ + seq![menu_keys()[i]] + "] "@ + shown + "  "@ + name;
            &&& i == menu.preferred ==> menu.line_text(i, sizes) == line + " (default)"@
            &&& i != menu.preferred ==> menu.line_text(i, sizes) == line
        }),
{
    reveal_strlit("");
    let name = menu.options@[i]@;
    let size = match recorded_size(sizes, name) {
        Some(n) => size_text(n as nat),
        None => "-"@,
    };
    let shown = Seq::new(
        (if size.len() < 8 {
            8 - size.len()
        } else {
            0
        }) as nat,
        |k: int| ' ',
    ) + size;
    assert(text::padded_left(size, 8) =~= shown);
    assert(menu.labels@[i]@ == seq![menu_keys()[i]]);
    let line = "  ["@ + seq![menu_keys()[i]] + "] "@ + shown + "  "@ + name;
    assert(line + ""@ =~= line);
}

/// A menu keeps the files in their order: the files of two listings are offered one behind the
/// other, and vision projectors behind a listing add nothing to it.
pub proof fn menu_keeps_the_order(
    a: Seq<Seq<char>>,
    b: Seq<Seq<char>>,
    x: Seq<char>,
    y: Seq<char>,
)
    requires
        a.contains(x),
        !"mmproj-"@.is_prefix_of(x),
    ensures
        b.contains(y) && !"mmproj-"@.is_prefix_of(y) ==> offered(a + b) == offered(a) + offered(b),
        "mmproj-"@.is_prefix_of(y) ==> offered(a.push(y)) == offered(a),
        !"mmproj-"@.is_prefix_of(y) ==> offered(a.push(y)) == offered(a).push(y),
        offered(seq![y]) == seq![y],
{
    let wanted = |name: Seq<char>| !"mmproj-"@.is_prefix_of(name);
    let i = choose|i: int| 0 <= i < a.len() && a[i] == x;
    a.lemma_filter_contains(wanted, i);
    Seq::filter_distributes_over_add(a, b, wanted);
    if b.contains(y) && !"mmproj-"@.is_prefix_of(y) {
        let j = choose|j: int| 0 <= j < b.len() && b[j] == y;
        b.lemma_filter_contains(wanted, j);
    }
    reveal(Seq::filter);
    assert(a.push(y).drop_last() =~= a);
    let one = seq![y];
    assert(one.drop_last() =~= Seq::<Seq<char>>::empty());
    assert(one.drop_last().filter(wanted) =~= Seq::<Seq<char>>::empty());
    assert(one.filter(wanted) =~= if "mmproj-"@.is_prefix_of(y) {
        Seq::<Seq<char>>::empty()
    } else {
        seq![y]
    });
}

/// The default of a menu is an option with the medium four-bit format wherever there is one, and
/// none before it has it.
pub proof fn default_of_a_menu(menu: GgufMenu, i: int)
    requires
        menu.well_formed(),
        0 <= i < menu.options@.len(),
        "Q4_K_M.gguf"@.is_suffix_of(menu.options@[i]@),
    ensures
        menu.preferred <= i,
        "Q4_K_M.gguf"@.is_suffix_of(menu.options@[menu.preferred as int]@),
{
    let names = text::views(menu.options@);
    lemma_first_ending(names, "Q4_K_M.gguf"@, 0);
    assert(names[i] == menu.options@[i]@);
    let p = preferred_index(names);
    assert(names[p] == menu.options@[p]@);
}

/// A number of more than 53 bits is rounded to the nearest number that has 53 bits and zeros behind
/// them.
pub proof fn large_numbers_are_rounded(n: nat)
    requires
        0x20_0000_0000_0000 <= n < 0x1_0000_0000_0000_0000,
    ensures
        exists|unit: nat, q: nat|
            {
                &&& nearest_double(n) == #[trigger] (q * unit)
                &&& seq![2nat, 4, 8, 16, 32, 64, 128, 256, 512, 1024, 2048].contains(unit)
                &&& 0x10_0000_0000_0000 * unit <= n < 0x20_0000_0000_0000 * unit
                &&& 2 * (q * unit - n) <= unit
                &&& 2 * (n - q * unit) <= unit
                &&& 2 * (q * unit - n) == unit || 2 * (n - q * unit) == unit ==> q % 2 == 0
            },
{
    reveal_with_fuel(spacing, 13);
    let unit = spacing(n, 1);
    let q = rounded_quotient(n, unit);
    quotients_are_rounded_to_the_nearest(n, unit);
    let units = seq![2nat, 4, 8, 16, 32, 64, 128, 256, 512, 1024, 2048];
    assert(units[0] == 2 && units[1] == 4 && units[2] == 8 && units[3] == 16 && units[4] == 32);
    assert(units[5] == 64 && units[6] == 128 && units[7] == 256 && units[8] == 512);
    assert(units[9] == 1024 && units[10] == 2048);
    assert(units.contains(unit));
    assert(nearest_double(n) == q * unit);
}

}

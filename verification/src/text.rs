//! Text helpers: decimal rendering of numbers and joining of pieces.

use vstd::prelude::*;

verus! {

/// Appends one character to a string.
pub assume_specification[ String::push ](s: &mut String, c: char)
    ensures
        final(s)@ == old(s)@.push(c),
;

/// The character that writes the decimal digit `d`.
pub open spec fn digit_char(d: int) -> char {
    (d + 48) as char
}

/// The decimal digits of `n`, most significant first, without leading zeros.
pub open spec fn decimal(n: nat) -> Seq<char>
    decreases n,
{
    if n < 10 {
        seq![digit_char(n as int)]
    } else {
        decimal(n / 10).push(digit_char((n % 10) as int))
    }
}

/// The decimal text of an integer, with a leading minus sign below zero.
pub open spec fn signed_decimal(n: int) -> Seq<char> {
    if n < 0 {
        seq!['-'] + decimal((-n) as nat)
    } else {
        decimal(n as nat)
    }
}

/// The pieces of `parts` in order, with `sep` between neighbours.
pub open spec fn join(parts: Seq<Seq<char>>, sep: Seq<char>) -> Seq<char>
    decreases parts.len(),
{
    if parts.len() == 0 {
        Seq::empty()
    } else if parts.len() == 1 {
        parts[0]
    } else {
        join(parts.drop_last(), sep) + sep + parts.last()
    }
}

/// The views of the items of a sequence, in order.
pub open spec fn views<T: View>(items: Seq<T>) -> Seq<T::V> {
    Seq::new(items.len(), |i: int| items[i]@)
}

/// The items of `items` in order of first occurrence, each once.
pub open spec fn first_occurrences<T>(items: Seq<T>) -> Seq<T>
    decreases items.len(),
{
    if items.len() == 0 {
        Seq::empty()
    } else {
        let before = first_occurrences(items.drop_last());
        if before.contains(items.last()) {
            before
        } else {
            before.push(items.last())
        }
    }
}

/// The position of the first of `items` that equals `item`, or the length
/// of `items` where there is none.
pub open spec fn index_of<T>(items: Seq<T>, item: T) -> int
    decreases items.len(),
{
    if items.len() == 0 {
        0
    } else if items[0] == item {
        0
    } else {
        1 + index_of(items.drop_first(), item)
    }
}

/// `index_of` finds the first place of an item, and only a place of it.
pub proof fn lemma_index_of<T>(items: Seq<T>, item: T)
    ensures
        0 <= index_of(items, item) <= items.len(),
        index_of(items, item) < items.len() ==> items[index_of(items, item)] == item,
        index_of(items, item) < items.len() <==> items.contains(item),
        forall|k: int| 0 <= k < index_of(items, item) ==> items[k] != item,
    decreases items.len(),
{
    if items.len() > 0 {
        if items[0] == item {
            assert(items.contains(item));
        } else {
            let rest = items.drop_first();
            lemma_index_of(rest, item);
            if index_of(rest, item) < rest.len() {
                assert(items[index_of(rest, item) + 1] == item);
            }
            if items.contains(item) {
                let k = choose|k: int| 0 <= k < items.len() && items[k] == item;
                assert(rest[k - 1] == item);
            }
            assert forall|k: int| 0 <= k < index_of(items, item) implies items[k] != item by {
                if k > 0 {
                    assert(rest[k - 1] == items[k]);
                }
            }
        }
    }
}

/// The position of the first entry of `entries` under `name`, or the
/// length of `entries` where there is none.
pub open spec fn entry_index<T>(entries: Seq<(Seq<char>, T)>, name: Seq<char>) -> int
    decreases entries.len(),
{
    if entries.len() == 0 {
        0
    } else if entries[0].0 == name {
        0
    } else {
        1 + entry_index(entries.drop_first(), name)
    }
}

/// `entry_index` finds the first entry under a name, and only an entry
/// under it.
pub proof fn lemma_entry_index<T>(entries: Seq<(Seq<char>, T)>, name: Seq<char>)
    ensures
        0 <= entry_index(entries, name) <= entries.len(),
        entry_index(entries, name) < entries.len() ==> entries[entry_index(entries, name)].0
            == name,
        forall|k: int| 0 <= k < entry_index(entries, name) ==> (#[trigger] entries[k]).0 != name,
    decreases entries.len(),
{
    if entries.len() > 0 && entries[0].0 != name {
        let rest = entries.drop_first();
        lemma_entry_index(rest, name);
        assert forall|k: int| 0 <= k < entry_index(entries, name) implies (
        #[trigger] entries[k]).0 != name by {
            if k > 0 {
                assert(rest[k - 1] == entries[k]);
            }
        }
    }
}

/// The items that `first_occurrences` keeps are those of `items`, each
/// once.
pub proof fn lemma_first_occurrences<T>(items: Seq<T>)
    ensures
        first_occurrences(items).no_duplicates(),
        forall|x: T| #[trigger] first_occurrences(items).contains(x) ==> items.contains(x),
        forall|x: T| #[trigger] items.contains(x) ==> first_occurrences(items).contains(x),
    decreases items.len(),
{
    if items.len() > 0 {
        let rest = items.drop_last();
        lemma_first_occurrences(rest);
        let before = first_occurrences(rest);
        let now = first_occurrences(items);
        assert forall|x: T| #[trigger] now.contains(x) implies items.contains(x) by {
            if now.contains(x) {
                let k = choose|k: int| 0 <= k < now.len() && now[k] == x;
                if k < before.len() {
                    assert(before[k] == x);
                    assert(before.contains(x));
                    let m = choose|m: int| 0 <= m < rest.len() && rest[m] == x;
                    assert(items[m] == x);
                } else {
                    assert(items[items.len() - 1] == x);
                }
            }
        }
        assert forall|x: T| #[trigger] items.contains(x) implies now.contains(x) by {
            if items.contains(x) {
                let m = choose|m: int| 0 <= m < items.len() && items[m] == x;
                if m < rest.len() {
                    assert(rest[m] == x);
                    assert(rest.contains(x));
                    assert(before.contains(x));
                    let k = choose|k: int| 0 <= k < before.len() && before[k] == x;
                    assert(now[k] == x);
                } else if before.contains(x) {
                } else {
                    assert(now[now.len() - 1] == x);
                }
            }
        }
    }
}

/// The names under which `entries` stand.
pub open spec fn keys<T>(entries: Seq<(Seq<char>, T)>) -> Seq<Seq<char>> {
    Seq::new(entries.len(), |i: int| entries[i].0)
}

/// The names under which `entries` stand.
pub open spec fn key_views<T>(entries: Seq<(String, T)>) -> Seq<Seq<char>> {
    Seq::new(entries.len(), |i: int| entries[i].0@)
}

/// The first entry under a name is the first place of the name among the
/// keys.
pub proof fn lemma_entry_index_keys<T>(entries: Seq<(Seq<char>, T)>, name: Seq<char>)
    ensures
        entry_index(entries, name) == index_of(keys(entries), name),
    decreases entries.len(),
{
    if entries.len() > 0 {
        assert(keys(entries)[0] == entries[0].0);
        if entries[0].0 != name {
            lemma_entry_index_keys(entries.drop_first(), name);
            assert(keys(entries).drop_first() =~= keys(entries.drop_first()));
        }
    }
}

fn digit_of(d: u8) -> (c: char)
    requires
        d < 10,
    ensures
        c == digit_char(d as int),
{
    (d + 48u8) as char
}

/// Writes an unsigned number in decimal.
pub fn render_u64(n: u64) -> (s: String)
    ensures
        s@ == decimal(n as nat),
    decreases n,
{
    if n < 10 {
        let mut s = String::new();
        s.push(digit_of(n as u8));
        assert(s@ =~= seq![digit_char(n as int)]);
        s
    } else {
        let mut s = render_u64(n / 10);
        s.push(digit_of((n % 10) as u8));
        s
    }
}

/// Writes an index or a count in decimal.
pub fn render_usize(n: usize) -> (s: String)
    ensures
        s@ == decimal(n as nat),
{
    render_u64(n as u64)
}

/// Writes a signed number in decimal.
pub fn render_i64(n: i64) -> (s: String)
    ensures
        s@ == signed_decimal(n as int),
{
    if n < 0 {
        let magnitude: u64 = if n == i64::MIN {
            9223372036854775808u64
        } else {
            (-n) as u64
        };
        let mut s = String::new();
        s.push('-');
        let digits = render_u64(magnitude);
        s.append(digits.as_str());
        assert(s@ =~= seq!['-'] + decimal((-n) as nat));
        s
    } else {
        render_u64(n as u64)
    }
}

/// Whether `name` is one of `names`.
pub fn contains_name(names: &Vec<String>, name: &String) -> (found: bool)
    ensures
        found == views(names@).contains(name@),
{
    let mut i: usize = 0;
    while i < names.len()
        invariant
            i <= names.len(),
            forall|k: int| 0 <= k < i ==> names@[k]@ != name@,
        decreases names.len() - i,
    {
        if names[i] == *name {
            assert(views(names@)[i as int] == name@);
            return true;
        }
        i = i + 1;
    }
    false
}

/// The name of the column at position `i`: `column_` and the position.
pub open spec fn column_name(i: nat) -> Seq<char> {
    "column_"@ + decimal(i)
}

/// The column names `column_0`, ..., `column_{n-1}`.
pub open spec fn column_names(n: nat) -> Seq<Seq<char>> {
    Seq::new(n, |i: int| column_name(i as nat))
}

/// Writes the name of the column at position `i`.
pub fn render_column(i: usize) -> (s: String)
    ensures
        s@ == column_name(i as nat),
{
    let mut s = String::from_str("column_");
    let digits = render_usize(i);
    s.append(digits.as_str());
    s
}

/// Writes the names of the first `n` columns.
pub fn render_columns(n: usize) -> (names: Vec<String>)
    ensures
        views(names@) == column_names(n as nat),
{
    let mut names: Vec<String> = Vec::new();
    let mut i: usize = 0;
    while i < n
        invariant
            i <= n,
            names@.len() == i,
            forall|k: int| 0 <= k < i ==> names@[k]@ == column_name(k as nat),
        decreases n - i,
    {
        names.push(render_column(i));
        i = i + 1;
    }
    assert(views(names@) =~= column_names(n as nat));
    names
}

/// The position of the first of `names` that equals `name`, or the number
/// of names where there is none.
pub fn find_name(names: &Vec<String>, name: &String) -> (k: usize)
    ensures
        k <= names@.len(),
        k == index_of(views(names@), name@),
{
    let ghost all = views(names@);
    let mut k: usize = 0;
    assert(all.skip(0) =~= all);
    while k < names.len()
        invariant
            k <= names.len(),
            all == views(names@),
            index_of(all, name@) == k + index_of(all.skip(k as int), name@),
        decreases names.len() - k,
    {
        let ghost rest = all.skip(k as int);
        proof {
            assert(rest[0] == all[k as int]);
            assert(rest.drop_first() =~= all.skip(k + 1));
        }
        if names[k] == *name {
            return k;
        }
        k = k + 1;
    }
    assert(all.skip(k as int) =~= Seq::empty());
    k
}

/// The position of the first of `entries` under `name`, or the number of
/// entries where there is none.
pub fn find_key<T>(entries: &Vec<(String, T)>, name: &String) -> (k: usize)
    ensures
        k <= entries@.len(),
        k == index_of(key_views(entries@), name@),
{
    let ghost all = key_views(entries@);
    let mut k: usize = 0;
    assert(all.skip(0) =~= all);
    while k < entries.len()
        invariant
            k <= entries.len(),
            all == key_views(entries@),
            index_of(all, name@) == k + index_of(all.skip(k as int), name@),
        decreases entries.len() - k,
    {
        let ghost rest = all.skip(k as int);
        proof {
            assert(rest[0] == all[k as int]);
            assert(rest.drop_first() =~= all.skip(k + 1));
        }
        if entries[k].0 == *name {
            return k;
        }
        k = k + 1;
    }
    assert(all.skip(k as int) =~= Seq::empty());
    k
}

/// The names of `names` in order of first occurrence, each once.
pub fn dedup_names(names: &Vec<String>) -> (r: Vec<String>)
    ensures
        views(r@) == first_occurrences(views(names@)),
{
    let mut r: Vec<String> = Vec::new();
    let mut i: usize = 0;
    assert(views(names@).take(0) =~= Seq::<Seq<char>>::empty());
    assert(views(r@) =~= Seq::<Seq<char>>::empty());
    while i < names.len()
        invariant
            i <= names.len(),
            views(r@) == first_occurrences(views(names@).take(i as int)),
        decreases names.len() - i,
    {
        let ghost next = views(names@).take(i + 1);
        let ghost before = views(r@);
        proof {
            assert(next.drop_last() =~= views(names@).take(i as int));
            assert(next.last() == names@[i as int]@);
        }
        if !contains_name(&r, &names[i]) {
            r.push(names[i].clone());
            assert(views(r@) =~= before.push(names@[i as int]@));
        }
        i = i + 1;
    }
    assert(views(names@).take(names.len() as int) =~= views(names@));
    r
}

/// Joins the strings of `parts`, writing `sep` between neighbours.
pub fn join_strings(parts: &Vec<String>, sep: &str) -> (s: String)
    ensures
        s@ == join(views(parts@), sep@),
{
    let mut s = String::new();
    let mut i: usize = 0;
    while i < parts.len()
        invariant
            i <= parts.len(),
            s@ == join(views(parts@).take(i as int), sep@),
        decreases parts.len() - i,
    {
        let ghost before = views(parts@).take(i as int);
        let ghost after = views(parts@).take(i + 1);
        proof {
            assert(after.drop_last() =~= before);
            assert(after.last() == parts@[i as int]@);
        }
        if i > 0 {
            s.append(sep);
        } else {
            assert(before =~= Seq::<Seq<char>>::empty());
            assert(s@ =~= Seq::<char>::empty());
            assert(s@ + parts@[i as int]@ =~= parts@[i as int]@);
        }
        s.append(parts[i].as_str());
        i = i + 1;
    }
    assert(views(parts@).take(parts.len() as int) =~= views(parts@));
    s
}

} // verus!

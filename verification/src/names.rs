//! The names of the benchmarks in a directory.

use vstd::prelude::*;
use vstd::seq_lib::{to_multiset_build, to_multiset_remove};

verus! {

/// The contents of strings.
pub open spec fn texts(strings: Seq<String>) -> Seq<Seq<char>> {
    strings.map_values(|s: String| s@)
}

/// Whether one text is not after another, by their first difference.
pub open spec fn text_le(a: Seq<char>, b: Seq<char>) -> bool
    decreases a.len(),
{
    if a.len() == 0 {
        true
    } else if b.len() == 0 {
        false
    } else if a[0] != b[0] {
        (a[0] as int) < (b[0] as int)
    } else {
        text_le(a.skip(1), b.skip(1))
    }
}

/// Whether no text is after a later one.
pub open spec fn in_order(names: Seq<Seq<char>>) -> bool {
    forall|i: int, j: int|
        0 <= i <= j < names.len() ==> text_le(#[trigger] names[i], #[trigger] names[j])
}

/// Of two texts, one is not after the other.
pub proof fn lemma_text_le_total(a: Seq<char>, b: Seq<char>)
    ensures
        text_le(a, b) || text_le(b, a),
    decreases a.len(),
{
    if a.len() > 0 && b.len() > 0 && a[0] == b[0] {
        lemma_text_le_total(a.skip(1), b.skip(1));
    }
}

/// A text is not after one that is not after a third which it is after.
pub proof fn lemma_text_le_transitive(a: Seq<char>, b: Seq<char>, c: Seq<char>)
    requires
        text_le(a, b),
        text_le(b, c),
    ensures
        text_le(a, c),
    decreases a.len(),
{
    if a.len() > 0 && b.len() > 0 && c.len() > 0 && a[0] == b[0] && b[0] == c[0] {
        lemma_text_le_transitive(a.skip(1), b.skip(1), c.skip(1));
    }
}

/// The name of the benchmark that a file defines: the name of a TOML file
/// without its extension. A name that is nothing but `.toml` has no extension.
pub open spec fn stem_of(file: Seq<char>) -> Option<Seq<char>> {
    if file.len() > 5 && file.skip(file.len() - 5) == ".toml"@ {
        Some(file.take(file.len() - 5))
    } else {
        None
    }
}

/// The names of the benchmarks that files define.
pub open spec fn stems_of(files: Seq<Seq<char>>) -> Seq<Seq<char>>
    decreases files.len(),
{
    if files.len() == 0 {
        Seq::empty()
    } else {
        let before = stems_of(files.drop_last());
        match stem_of(files.last()) {
            Some(stem) => before.push(stem),
            None => before,
        }
    }
}

/// Whether one text is not after another.
pub fn not_after(a: &str, b: &str) -> (le: bool)
    ensures
        le == text_le(a@, b@),
{
    let (m, n): (usize, usize) = (a.unicode_len(), b.unicode_len());
    let mut i: usize = 0;
    assert(a@.skip(0) =~= a@ && b@.skip(0) =~= b@);
    while i < m && i < n
        invariant
            i <= m == a@.len(),
            i <= n == b@.len(),
            text_le(a@, b@) == text_le(a@.skip(i as int), b@.skip(i as int)),
        decreases m - i,
    {
        let (c, d): (char, char) = (a.get_char(i), b.get_char(i));
        if c != d {
            return (c as u32) < (d as u32);
        }
        assert(a@.skip(i as int).skip(1) =~= a@.skip(i + 1));
        assert(b@.skip(i as int).skip(1) =~= b@.skip(i + 1));
        i += 1;
    }
    i == m
}

/// The name of the benchmark that a file defines, if it defines one.
pub fn stem(file: &str) -> (name: Option<String>)
    ensures
        match name {
            Some(s) => stem_of(file@) == Some(s@),
            None => stem_of(file@) is None,
        },
        name matches Some(s) ==> s@.len() > 0 && file@ == s@ + ".toml"@,
        file@.len() > 5 && file@.skip(file@.len() - 5) == ".toml"@ ==> name is Some,
{
    let n: usize = file.unicode_len();
    if n <= 5 {
        return None;
    }
    let dot: usize = n - 5;
    proof {
        reveal_strlit(".toml");
        let tail = file@.skip(file@.len() - 5);
        assert(".toml"@ =~= seq!['.', 't', 'o', 'm', 'l']);
        if tail == ".toml"@ {
            assert(tail[0] == '.' && tail[1] == 't' && tail[2] == 'o' && tail[3] == 'm' && tail[4]
                == 'l');
        }
    }
    if file.get_char(dot) == '.' && file.get_char(dot + 1) == 't' && file.get_char(dot + 2) == 'o'
        && file.get_char(dot + 3) == 'm' && file.get_char(dot + 4) == 'l' {
        assert(file@.skip(file@.len() - 5) =~= ".toml"@);
        assert(file@.subrange(0, dot as int) =~= file@.take(file@.len() - 5));
        assert(file@ =~= file@.take(file@.len() - 5) + ".toml"@);
        Some(String::from_str(file.substring_char(0, dot)))
    } else {
        None
    }
}

proof fn lemma_inserted(names: Seq<Seq<char>>, at: int, name: Seq<char>)
    requires
        0 <= at <= names.len(),
    ensures
        names.insert(at, name).to_multiset() == names.to_multiset().insert(name),
{
    broadcast use vstd::seq_lib::group_to_multiset_ensures;

    let after = names.insert(at, name);
    assert(after.remove(at) =~= names);
    to_multiset_remove(after, at);
    assert(after[at] == name);
    assert(after.contains(name));
    assert(after.to_multiset() =~= names.to_multiset().insert(name));
}

/// Put a name where it belongs among names in order.
fn insert_in_order(names: &mut Vec<String>, name: String)
    requires
        in_order(texts(old(names)@)),
    ensures
        in_order(texts(final(names)@)),
        texts(final(names)@).to_multiset() == texts(old(names)@).to_multiset().insert(name@),
        final(names)@.len() == old(names)@.len() + 1,
{
    let ghost before = texts(names@);
    let mut at: usize = 0;
    while at < names.len() && not_after(names[at].as_str(), name.as_str())
        invariant
            at <= names@.len(),
            before == texts(names@),
            forall|i: int| 0 <= i < at ==> text_le(#[trigger] before[i], name@),
        decreases names@.len() - at,
    {
        at += 1;
    }
    let ghost text = name@;
    names.insert(at, name);
    proof {
        let after = texts(names@);
        assert(after =~= before.insert(at as int, text));
        lemma_inserted(before, at as int, text);
        assert forall|i: int, j: int| 0 <= i <= j < after.len() implies text_le(
            #[trigger] after[i],
            #[trigger] after[j],
        ) by {
            if at < before.len() {
                lemma_text_le_total(before[at as int], text);
            }
            lemma_text_le_total(text, text);
            if i == at && j > at {
                lemma_text_le_transitive(text, before[at as int], before[j - 1]);
            }
        }
    }
}

/// The names of the benchmarks that the files of a directory define, in order.
pub fn benchmark_names(files: &Vec<String>) -> (names: Result<Vec<String>, String>)
    ensures
        match names {
            Ok(names) => {
                &&& names@.len() > 0
                &&& in_order(texts(names@))
                &&& texts(names@).to_multiset() == stems_of(texts(files@)).to_multiset()
            },
            Err(message) => {
                &&& stems_of(texts(files@)).len() == 0
                &&& message@ == "No benchmark files found in bench/configs/ directory"@
            },
        },
{
    broadcast use vstd::seq_lib::group_to_multiset_ensures;

    let mut names: Vec<String> = Vec::new();
    assert(texts(names@) =~= Seq::empty());
    let mut i: usize = 0;
    while i < files.len()
        invariant
            i <= files@.len(),
            in_order(texts(names@)),
            texts(names@).to_multiset() == stems_of(texts(files@).take(i as int)).to_multiset(),
        decreases files@.len() - i,
    {
        let ghost so_far = texts(files@).take(i + 1);
        assert(so_far.drop_last() =~= texts(files@).take(i as int));
        assert(so_far.last() == files@[i as int]@);
        match stem(files[i].as_str()) {
            Some(name) => {
                proof {
                    to_multiset_build(stems_of(so_far.drop_last()), name@);
                }
                insert_in_order(&mut names, name);
            },
            None => {},
        }
        i += 1;
    }
    assert(texts(files@).take(i as int) =~= texts(files@));
    assert(texts(names@).to_multiset().len() == texts(names@).len());
    assert(stems_of(texts(files@)).to_multiset().len() == stems_of(texts(files@)).len());
    if names.len() == 0 {
        return Err(String::from_str("No benchmark files found in bench/configs/ directory"));
    }
    Ok(names)
}

/// One text is not after another just if it is the beginning of the other, or has
/// the lower character where they first differ.
pub proof fn law_text_order(a: Seq<char>, b: Seq<char>)
    ensures
        text_le(a, b) <==> {
            ||| a.len() <= b.len() && b.take(a.len() as int) == a
            ||| exists|i: int|
                0 <= i < a.len() && i < b.len() && a.take(i) == #[trigger] b.take(i) && (a[i] as int)
                    < (b[i] as int)
        },
    decreases a.len(),
{
    let before = a.len() <= b.len() && b.take(a.len() as int) == a;
    let lower = exists|i: int|
        0 <= i < a.len() && i < b.len() && a.take(i) == #[trigger] b.take(i) && (a[i] as int) < (
        b[i] as int);
    if a.len() == 0 {
        assert(b.take(0) =~= a);
    } else if b.len() > 0 {
        let (c, d) = (a.skip(1), b.skip(1));
        if a[0] != b[0] {
            if (a[0] as int) < (b[0] as int) {
                assert(a.take(0) =~= b.take(0));
            }
            if before {
                assert(b.take(a.len() as int)[0] == b[0]);
            }
            if lower {
                let i = choose|i: int|
                    0 <= i < a.len() && i < b.len() && a.take(i) == #[trigger] b.take(i) && (
                    a[i] as int) < (b[i] as int);
                if i > 0 {
                    assert(a.take(i)[0] == a[0] && b.take(i)[0] == b[0]);
                }
            }
        } else {
            law_text_order(c, d);
            if before {
                assert(d.take(c.len() as int) =~= b.take(a.len() as int).skip(1));
            }
            if c.len() <= d.len() && d.take(c.len() as int) == c {
                assert forall|i: int| 0 <= i < a.len() implies #[trigger] b.take(a.len() as int)[i]
                    == a[i] by {
                    if i > 0 {
                        assert(d.take(c.len() as int)[i - 1] == c[i - 1]);
                    }
                }
                assert(b.take(a.len() as int) =~= a);
            }
            if lower {
                let i = choose|i: int|
                    0 <= i < a.len() && i < b.len() && a.take(i) == #[trigger] b.take(i) && (
                    a[i] as int) < (b[i] as int);
                assert(i > 0);
                assert(c.take(i - 1) =~= a.take(i).skip(1));
                assert(d.take(i - 1) =~= b.take(i).skip(1));
                assert(c[i - 1] == a[i] && d[i - 1] == b[i]);
            }
            if exists|i: int|
                0 <= i < c.len() && i < d.len() && c.take(i) == #[trigger] d.take(i) && (
                c[i] as int) < (d[i] as int) {
                let i = choose|i: int|
                    0 <= i < c.len() && i < d.len() && c.take(i) == #[trigger] d.take(i) && (
                    c[i] as int) < (d[i] as int);
                assert(a.take(i + 1) =~= seq![a[0]] + c.take(i));
                assert(b.take(i + 1) =~= seq![b[0]] + d.take(i));
                assert(a.take(i + 1) == b.take(i + 1));
            }
        }
    }
}

/// The file of a name is that name and `.toml`, and a file with another ending or
/// with nothing before the ending is of no name.
pub proof fn law_stem_is_undone_by_ending(file: Seq<char>, name: Seq<char>)
    ensures
        stem_of(file) == Some(name) <==> name.len() > 0 && file == name + seq![
            '.',
            't',
            'o',
            'm',
            'l',
        ],
{
    reveal_strlit(".toml");
    let ending = seq!['.', 't', 'o', 'm', 'l'];
    assert(".toml"@ =~= ending);
    if stem_of(file) == Some(name) {
        assert(file =~= file.take(file.len() - 5) + file.skip(file.len() - 5));
    }
    if name.len() > 0 && file == name + ending {
        assert(file.skip(file.len() - 5) =~= ending);
        assert(file.take(file.len() - 5) =~= name);
    }
}

/// The names that files define are found file by file, in their order: the files
/// of two parts define what the parts define, and a file by itself defines the
/// name that it has, if it has one.
pub proof fn law_stems_file_by_file(a: Seq<Seq<char>>, b: Seq<Seq<char>>, name: Seq<char>)
    ensures
        stems_of(a + b) == stems_of(a) + stems_of(b),
        stems_of(Seq::empty()).len() == 0,
        name.len() > 0 ==> stems_of(seq![name + seq!['.', 't', 'o', 'm', 'l']]) == seq![name],
        name.len() <= 5 || name.skip(name.len() - 5) != seq!['.', 't', 'o', 'm', 'l'] ==> stems_of(
            seq![name],
        ).len() == 0,
    decreases b.len(),
{
    if b.len() == 0 {
        assert(a + b =~= a);
        assert(stems_of(a) + stems_of(b) =~= stems_of(a));
    } else {
        law_stems_file_by_file(a, b.drop_last(), name);
        assert((a + b).drop_last() =~= a + b.drop_last());
        assert((a + b).last() == b.last());
        assert(stems_of(a + b) =~= stems_of(a) + stems_of(b));
    }
    let file = name + seq!['.', 't', 'o', 'm', 'l'];
    law_stem_is_undone_by_ending(file, name);
    assert(seq![file].drop_last() =~= Seq::<Seq<char>>::empty());
    assert(seq![name].drop_last() =~= Seq::<Seq<char>>::empty());
    assert(stems_of(Seq::<Seq<char>>::empty()) =~= Seq::<Seq<char>>::empty());
    if name.len() > 0 {
        assert(stems_of(seq![file]) =~= seq![name]);
    }
    if stem_of(name) is Some {
        let s = stem_of(name)->Some_0;
        law_stem_is_undone_by_ending(name, s);
        assert(name.skip(name.len() - 5) =~= seq!['.', 't', 'o', 'm', 'l']);
    }
    assert(stem_of(name) is None ==> stems_of(seq![name]) =~= Seq::<Seq<char>>::empty());
}

/// The contents of strings are those of each, in the same order.
pub proof fn law_texts_one_by_one(strings: Seq<String>, i: int)
    requires
        0 <= i < strings.len(),
    ensures
        texts(strings).len() == strings.len(),
        texts(strings)[i] == strings[i]@,
{
}

/// Of names in order, none is after a later one.
pub proof fn law_names_in_order(names: Seq<Seq<char>>, i: int, j: int)
    requires
        0 <= i <= j < names.len(),
        in_order(names),
    ensures
        text_le(names[i], names[j]),
{
}

} // verus!

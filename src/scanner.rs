//! Choices the local library scanner makes about a directory of comics:
//! which entries it can read and which one gives a series its cover.
use std::cmp::Ordering;
use vstd::prelude::*;
use vstd::string::*;
use vstd::utf8::*;

verus! {

/// Human order of two names: numbers inside them compare by value.
pub uninterp spec fn human_order(a: Seq<char>, b: Seq<char>) -> Ordering;

pub open spec fn is_ascii_digit(b: u8) -> bool {
    48 <= b <= 57
}

/// The ten bytes from `i` on are all ASCII digits.
pub open spec fn digit_window(b: Seq<u8>, i: int) -> bool {
    forall|j: int| i <= j < i + 10 ==> is_ascii_digit(#[trigger] b[j])
}

/// No ten ASCII digits in a row.
pub open spec fn short_digit_runs(b: Seq<u8>) -> bool {
    forall|i: int| 0 <= i && i + 10 <= b.len() ==> !#[trigger] digit_window(b, i)
}

/// Relies on `human_sort::compare`: its result depends on the two names
/// alone. It sums each run of digits in a `u32`, so names with runs of ten
/// digits or more are kept away from it.
#[verifier::external_body]
fn human_compare(a: &str, b: &str) -> (r: Ordering)
    requires
        short_digit_runs(a.spec_bytes()),
        short_digit_runs(b.spec_bytes()),
    ensures
        r == human_order(a@, b@),
{
    human_sort::compare(a, b)
}

pub open spec fn ascii_lower(c: u8) -> u8 {
    if 65 <= c <= 90 {
        (c + 32) as u8
    } else {
        c
    }
}

/// Whether a file name, as UTF-8 bytes, has the extension `cbz` or `cbr`
/// in any case, after a non-empty stem.
pub open spec fn is_supported_name(b: Seq<u8>) -> bool {
    &&& b.len() >= 5
    &&& b[b.len() - 4] == 46
    &&& ascii_lower(b[b.len() - 3]) == 99
    &&& ascii_lower(b[b.len() - 2]) == 98
    &&& (ascii_lower(b[b.len() - 1]) == 122 || ascii_lower(b[b.len() - 1]) == 114)
}

/// An entry of a series directory.
pub struct CoverEntry {
    pub name: String,
    pub is_dir: bool,
}

/// An entry can hold the cover when it is a directory or a readable archive.
pub open spec fn eligible(e: CoverEntry) -> bool {
    e.is_dir || is_supported_name(encode_utf8(e.name@))
}

/// One step of the cover choice: entry `i` replaces the choice so far when
/// it is eligible and does not come before it in human order (`order` is how
/// entry `i` compares with the choice so far).
pub open spec fn cover_step(prev: Option<int>, i: int, is_eligible: bool, order: Ordering) -> Option<
    int,
> {
    if !is_eligible {
        prev
    } else {
        match prev {
            None => Some(i),
            Some(b) => if order != Ordering::Less {
                Some(i)
            } else {
                prev
            },
        }
    }
}

pub open spec fn is_file_entry() -> spec_fn(CoverEntry) -> bool {
    |e: CoverEntry| !e.is_dir
}

/// The entry that gives the cover: of the eligible entries, the last one in
/// human order, a later entry winning a tie.
pub open spec fn cover_choice(es: Seq<CoverEntry>) -> Option<int>
    decreases es.len(),
{
    if es.len() == 0 {
        None
    } else {
        let prev = cover_choice(es.drop_last());
        let last = es.len() - 1;
        cover_step(
            prev,
            last,
            eligible(es[last]),
            match prev {
                Some(b) => human_order(es[last].name@, es[b].name@),
                None => Ordering::Equal,
            },
        )
    }
}

/// The choice after looking at entry `i`; see `cover_step`.
pub fn next_cover(prev: Option<usize>, i: usize, is_eligible: bool, order: Ordering) -> (r: Option<
    usize,
>)
    ensures
        match r {
            Some(x) => cover_step(
                match prev {
                    Some(b) => Some(b as int),
                    None => None,
                },
                i as int,
                is_eligible,
                order,
            ) == Some(x as int),
            None => cover_step(
                match prev {
                    Some(b) => Some(b as int),
                    None => None,
                },
                i as int,
                is_eligible,
                order,
            ) is None,
        },
{
    if !is_eligible {
        return prev;
    }
    match prev {
        None => Some(i),
        Some(_) => match order {
            Ordering::Less => prev,
            _ => Some(i),
        },
    }
}

proof fn lemma_cover_choice_range(es: Seq<CoverEntry>)
    ensures
        cover_choice(es) matches Some(b) ==> 0 <= b < es.len() && eligible(es[b]),
    decreases es.len(),
{
    if es.len() > 0 {
        lemma_cover_choice_range(es.drop_last());
    }
}

/// One step of the first-entry choice: entry `i` replaces the choice so far
/// when it comes strictly before it (`order` is how entry `i` compares with
/// the choice so far).
pub open spec fn first_step(prev: Option<int>, i: int, order: Ordering) -> Option<int> {
    match prev {
        None => Some(i),
        Some(b) => if order == Ordering::Less {
            Some(i)
        } else {
            prev
        },
    }
}

/// The first of `names` in human order, an earlier name winning a tie.
pub open spec fn first_choice(names: Seq<String>) -> Option<int>
    decreases names.len(),
{
    if names.len() == 0 {
        None
    } else {
        let prev = first_choice(names.drop_last());
        let last = names.len() - 1;
        first_step(
            prev,
            last,
            match prev {
                Some(b) => human_order(names[last]@, names[b]@),
                None => Ordering::Equal,
            },
        )
    }
}

/// The choice after looking at entry `i`; see `first_step`.
pub fn next_first(prev: Option<usize>, i: usize, order: Ordering) -> (r: Option<usize>)
    ensures
        match r {
            Some(x) => first_step(
                match prev {
                    Some(b) => Some(b as int),
                    None => None,
                },
                i as int,
                order,
            ) == Some(x as int),
            None => first_step(
                match prev {
                    Some(b) => Some(b as int),
                    None => None,
                },
                i as int,
                order,
            ) is None,
        },
{
    match prev {
        None => Some(i),
        Some(_) => match order {
            Ordering::Less => Some(i),
            _ => prev,
        },
    }
}

proof fn lemma_first_choice_range(names: Seq<String>)
    ensures
        first_choice(names) matches Some(b) ==> 0 <= b < names.len(),
        names.len() > 0 ==> first_choice(names) is Some,
    decreases names.len(),
{
    if names.len() > 0 {
        lemma_first_choice_range(names.drop_last());
    }
}

/// The path shown when no cover can be found.
pub const DEFAULT_COVER_URL: &'static str = "/images/cover-placeholder.jpg";

/// Whether `b` has no run of ten ASCII digits.
pub fn has_short_digit_runs(b: &str) -> (r: bool)
    ensures
        r == short_digit_runs(b.spec_bytes()),
{
    let bytes = b.as_bytes();
    let mut run: usize = 0;
    let mut i: usize = 0;
    while i < bytes.len()
        invariant
            i <= bytes@.len(),
            bytes@ == b.spec_bytes(),
            run <= 9,
            run <= i,
            forall|k: int| i - run <= k < i ==> is_ascii_digit(#[trigger] bytes@[k]),
            i - run > 0 ==> !is_ascii_digit(bytes@[i - run - 1]),
            forall|w: int| 0 <= w && w + 10 <= i ==> !#[trigger] digit_window(bytes@, w),
        decreases bytes@.len() - i,
    {
        let c = bytes[i];
        if 48 <= c && c <= 57 {
            if run == 9 {
                proof {
                    let w = i - 9;
                    assert(digit_window(bytes@, w));
                }
                return false;
            }
            run = run + 1;
        } else {
            run = 0;
        }
        i = i + 1;
        proof {
            assert forall|w: int| 0 <= w && w + 10 <= i implies !#[trigger] digit_window(
                bytes@,
                w,
            ) by {
                if w + 10 == i {
                    if run == 0 {
                        assert(!is_ascii_digit(bytes@[i - 1]));
                    } else {
                        assert(!is_ascii_digit(bytes@[i - run - 1]));
                    }
                }
            }
        }
    }
    true
}

/// A scanner of the local library rooted at `path`.
pub struct Scanner {
    pub path: String,
}

impl Scanner {
    pub fn new(path: &str) -> (r: Scanner)
        ensures
            r.path@ == path@,
    {
        Scanner { path: path.to_owned() }
    }

    pub fn default_cover_url() -> (r: String)
        ensures
            r@ == DEFAULT_COVER_URL@,
    {
        DEFAULT_COVER_URL.to_owned()
    }

    /// Whether `name` is an archive the scanner reads: `.cbz` or `.cbr`, in any case.
    pub fn is_supported_file(name: &str) -> (r: bool)
        ensures
            r == is_supported_name(name.spec_bytes()),
    {
        let b = name.as_bytes();
        let n = b.len();
        if n < 5 {
            return false;
        }
        b[n - 4] == 46 && lower(b[n - 3]) == 99 && lower(b[n - 2]) == 98 && (lower(b[n - 1]) == 122
            || lower(b[n - 1]) == 114)
    }

    /// The pages of a chapter directory: its entries that are files, in order.
    pub fn page_files(entries: &Vec<CoverEntry>) -> (r: Vec<String>)
        ensures
            r@.map_values(|s: String| s@) == entries@.filter(is_file_entry()).map_values(
                |e: CoverEntry| e.name@,
            ),
    {
        let ghost f = is_file_entry();
        let mut r: Vec<String> = Vec::new();
        let mut i: usize = 0;
        while i < entries.len()
            invariant
                i <= entries@.len(),
                f == is_file_entry(),
                r@.map_values(|s: String| s@) == entries@.take(i as int).filter(f).map_values(
                    |e: CoverEntry| e.name@,
                ),
            decreases entries@.len() - i,
        {
            let ghost before = r@;
            if !entries[i].is_dir {
                r.push(entries[i].name.clone());
            }
            proof {
                let e = entries@[i as int];
                let kept = entries@.take(i as int).filter(f);
                assert(entries@.take(i + 1) =~= entries@.take(i as int).push(e));
                entries@.take(i as int).lemma_filter_push(e, f);
                if !e.is_dir {
                    assert(r@.map_values(|s: String| s@) =~= before.map_values(|s: String| s@).push(
                        e.name@,
                    ));
                    assert(kept.push(e).map_values(|x: CoverEntry| x.name@) =~= kept.map_values(
                        |x: CoverEntry| x.name@,
                    ).push(e.name@));
                }
            }
            i = i + 1;
        }
        assert(entries@.take(i as int) =~= entries@);
        r
    }

    /// Which entry of a chapter directory is its first page: see `first_choice`.
    pub fn first_entry(names: &Vec<String>) -> (r: Option<usize>)
        requires
            forall|i: int| 0 <= i < names@.len() ==> short_digit_runs(encode_utf8(#[trigger] names@[i]@)),
        ensures
            match r {
                Some(i) => first_choice(names@) == Some(i as int),
                None => first_choice(names@) is None,
            },
            r is None <==> names@.len() == 0,
    {
        let mut best: Option<usize> = None;
        let mut i: usize = 0;
        while i < names.len()
            invariant
                i <= names@.len(),
                forall|k: int|
                    0 <= k < names@.len() ==> short_digit_runs(encode_utf8(#[trigger] names@[k]@)),
                match best {
                    Some(b) => first_choice(names@.take(i as int)) == Some(b as int),
                    None => first_choice(names@.take(i as int)) is None,
                },
            decreases names@.len() - i,
        {
            proof {
                let t = names@.take(i + 1);
                assert(t.drop_last() =~= names@.take(i as int));
                assert(t[i as int] == names@[i as int]);
                lemma_first_choice_range(names@.take(i as int));
            }
            let order = match best {
                Some(b) => {
                    proof {
                        assert(names@.take(i as int)[b as int] == names@[b as int]);
                    }
                    human_compare(names[i].as_str(), names[b].as_str())
                },
                None => Ordering::Equal,
            };
            best = next_first(best, i, order);
            i = i + 1;
        }
        assert(names@.take(i as int) =~= names@);
        proof {
            lemma_first_choice_range(names@);
        }
        best
    }

    /// Which entry of a series directory gives the cover, if any: see
    /// `cover_choice`.
    pub fn find_cover_entry(entries: &Vec<CoverEntry>) -> (r: Option<usize>)
        requires
            forall|i: int|
                0 <= i < entries@.len() ==> short_digit_runs(
                    encode_utf8(#[trigger] entries@[i].name@),
                ),
        ensures
            match r {
                Some(i) => cover_choice(entries@) == Some(i as int),
                None => cover_choice(entries@) is None,
            },
    {
        let mut best: Option<usize> = None;
        let mut i: usize = 0;
        while i < entries.len()
            invariant
                i <= entries@.len(),
                forall|k: int|
                    0 <= k < entries@.len() ==> short_digit_runs(
                        encode_utf8(#[trigger] entries@[k].name@),
                    ),
                match best {
                    Some(b) => cover_choice(entries@.take(i as int)) == Some(b as int),
                    None => cover_choice(entries@.take(i as int)) is None,
                },
            decreases entries@.len() - i,
        {
            let e = &entries[i];
            proof {
                let t = entries@.take(i + 1);
                assert(t.drop_last() =~= entries@.take(i as int));
                assert(t[i as int] == entries@[i as int]);
                lemma_cover_choice_range(entries@.take(i as int));
            }
            let ok = e.is_dir || Scanner::is_supported_file(e.name.as_str());
            let order = match best {
                Some(b) => {
                    proof {
                        assert(entries@.take(i as int)[b as int] == entries@[b as int]);
                    }
                    human_compare(e.name.as_str(), entries[b].name.as_str())
                },
                None => Ordering::Equal,
            };
            best = next_cover(best, i, ok, order);
            i = i + 1;
        }
        assert(entries@.take(i as int) =~= entries@);
        best
    }
}

fn lower(c: u8) -> (r: u8)
    ensures
        r == ascii_lower(c),
{
    if 65 <= c && c <= 90 {
        c + 32
    } else {
        c
    }
}

} // verus!

//! Temporary-file naming for tests.
//!
//! Instead of process-wide mutable state, a [`TempFileRegistry`] owns the
//! naming counter and the list of reserved paths; callers create one and
//! thread it through. Creating the backing file and directory on disk,
//! and deleting them afterwards, is the caller's business.

use vstd::prelude::*;

use crate::file_ref::FileRef;
use crate::nodes::normalize;
use crate::text::append_chars;
use crate::text::chars_eq;
use crate::text::from_chars;
use crate::text::strings_view;
use crate::text::lemma_strings_view_index;
use crate::text::lemma_strings_view_len;
use crate::text::to_chars;
use vstd::string::StringExecFns;

verus! {

/// The decimal digits of `n`, most significant first.
pub open spec fn decimal_digits(n: nat) -> Seq<char>
    decreases n,
{
    if n < 10 {
        seq![digit_char(n)]
    } else {
        decimal_digits(n / 10) + seq![digit_char(n % 10)]
    }
}

/// The character for a single decimal digit.
pub open spec fn digit_char(d: nat) -> char {
    if d == 0 {
        '0'
    } else if d == 1 {
        '1'
    } else if d == 2 {
        '2'
    } else if d == 3 {
        '3'
    } else if d == 4 {
        '4'
    } else if d == 5 {
        '5'
    } else if d == 6 {
        '6'
    } else if d == 7 {
        '7'
    } else if d == 8 {
        '8'
    } else {
        '9'
    }
}

/// `ds` padded with leading zeros to at least eight characters.
pub open spec fn pad_to_eight(ds: Seq<char>) -> Seq<char>
    decreases 8 - ds.len(),
{
    if ds.len() >= 8 {
        ds
    } else {
        pad_to_eight(seq!['0'] + ds)
    }
}

/// The path a temporary file numbered `n` gets, with an optional
/// extension.
pub open spec fn temp_file_path(n: nat, extension: Option<Seq<char>>) -> Seq<char> {
    "target/unit_test_support/"@ + pad_to_eight(decimal_digits(n)) + (match extension {
        Option::None => Seq::<char>::empty(),
        Option::Some(e) => seq!['.'] + e,
    })
}

/// The digit character for `d`.
fn digit_char_exec(d: u64) -> (r: char)
    requires
        d < 10,
    ensures
        r == digit_char(d as nat),
{
    if d == 0 {
        '0'
    } else if d == 1 {
        '1'
    } else if d == 2 {
        '2'
    } else if d == 3 {
        '3'
    } else if d == 4 {
        '4'
    } else if d == 5 {
        '5'
    } else if d == 6 {
        '6'
    } else if d == 7 {
        '7'
    } else if d == 8 {
        '8'
    } else {
        '9'
    }
}

/// The decimal digits of `n`, padded with leading zeros to eight
/// characters.
fn format_index(n: u64) -> (r: Vec<char>)
    ensures
        r@ == pad_to_eight(decimal_digits(n as nat)),
{
    let mut digits: Vec<char> = Vec::new();
    let mut m = n;
    proof {
        if n > 0 {
            assert(decimal_digits(n as nat) + digits@ =~= decimal_digits(n as nat));
        }
    }
    loop
        invariant
            m == 0 && digits@.len() == 0 ==> n == 0,
            m > 0 || digits@.len() > 0 ==> decimal_digits(n as nat) == if m > 0 {
                decimal_digits(m as nat) + digits@
            } else {
                digits@
            },
        ensures
            decimal_digits(n as nat) == digits@,
            digits@.len() > 0,
        decreases m, (if digits@.len() == 0 {
            1int
        } else {
            0int
        }),
    {
        if m == 0 && digits.len() > 0 {
            break;
        }
        let ghost old_digits = digits@;
        let d = m % 10;
        digits.insert(0, digit_char_exec(d));
        proof {
            assert(digits@ =~= seq![digit_char(d as nat)] + old_digits);
            if m >= 10 {
                assert(decimal_digits(m as nat) == decimal_digits((m / 10) as nat) + seq![
                    digit_char((m % 10) as nat)]);
                assert(decimal_digits((m / 10) as nat) + (seq![digit_char(d as nat)] + old_digits)
                    =~= decimal_digits(m as nat) + old_digits);
            } else {
                assert(decimal_digits(m as nat) == seq![digit_char(m as nat)]);
                assert(seq![digit_char(d as nat)] + old_digits =~= decimal_digits(m as nat)
                    + old_digits);
            }
        }
        m = m / 10;
    }
    while digits.len() < 8
        invariant
            pad_to_eight(decimal_digits(n as nat)) == pad_to_eight(digits@),
            digits@.len() > 0,
        decreases 8 - digits@.len(),
    {
        let ghost old_digits = digits@;
        digits.insert(0, '0');
        proof {
            assert(digits@ =~= seq!['0'] + old_digits);
        }
    }
    proof {
        assert(pad_to_eight(digits@) == digits@);
    }
    digits
}

/// The naming state for temporary files: the next index to hand out and
/// the paths already reserved.
pub struct TempFileRegistry {
    reserved: Vec<String>,
    next_index: u64,
}

impl TempFileRegistry {
    /// The reserved paths.
    pub closed spec fn reserved_paths(&self) -> Seq<Seq<char>> {
        strings_view(self.reserved@)
    }

    /// The next naming index.
    pub closed spec fn next_index_spec(&self) -> u64 {
        self.next_index
    }

    /// A fresh registry: nothing reserved, numbering from zero.
    pub fn new() -> (r: TempFileRegistry)
        ensures
            r.reserved_paths() == Seq::<Seq<char>>::empty(),
            r.next_index_spec() == 0,
    {
        let r = TempFileRegistry { reserved: Vec::new(), next_index: 0 };
        proof {
            assert(r.reserved_paths() =~= Seq::<Seq<char>>::empty());
        }
        r
    }

    /// Whether a path is reserved.
    fn is_reserved(&self, path: &Vec<char>) -> (r: bool)
        ensures
            r == self.reserved_paths().contains(path@),
    {
        broadcast use {lemma_strings_view_len, lemma_strings_view_index};
        let n = self.reserved.len();
        let mut i: usize = 0;
        while i < n
            invariant
                i <= n,
                n == self.reserved@.len(),
                forall|j: int| 0 <= j < i ==> self.reserved_paths()[j] != path@,
            decreases n - i,
        {
            let entry = to_chars(self.reserved[i].as_str());
            if chars_eq(&entry, path) {
                proof {
                    assert(self.reserved_paths()[i as int] == path@);
                }
                return true;
            }
            i = i + 1;
        }
        proof {
            if self.reserved_paths().contains(path@) {
                let j = choose|j: int|
                    0 <= j < self.reserved_paths().len() && self.reserved_paths()[j] == path@;
                assert(self.reserved_paths()[j] != path@);
            }
        }
        false
    }
}

/// The view of an optional extension.
pub open spec fn extension_view(extension: Option<&str>) -> Option<Seq<char>> {
    match extension {
        Option::None => Option::None,
        Option::Some(e) => Option::Some(e@),
    }
}

/// A reserved temporary-file path. The value only names the file; making
/// it exist on disk, and removing it, happens outside the library.
pub struct TempFile(FileRef);

impl TempFile {
    /// The path of the temporary file.
    pub closed spec fn path_spec(&self) -> Seq<char> {
        self.0@
    }

    /// A fresh temporary file name, reserved in `registry`: the first
    /// unreserved numbered path, with the given extension. `None` only
    /// when the numbering space is exhausted.
    pub fn new(extension: Option<&str>, registry: &mut TempFileRegistry) -> (r: Option<TempFile>)
        ensures
            match r {
                Option::Some(t) => {
                    &&& t.path_spec() == normalize(
                        temp_file_path(
                            final(registry).next_index_spec() as nat,
                            extension_view(extension),
                        ),
                    )
                    &&& !old(registry).reserved_paths().contains(t.path_spec())
                    &&& final(registry).reserved_paths() == old(registry).reserved_paths().push(
                        t.path_spec(),
                    )
                },
                Option::None => {
                    &&& final(registry).next_index_spec() == u64::MAX
                    &&& final(registry).reserved_paths() == old(registry).reserved_paths()
                    &&& forall|n: u64|
                        old(registry).next_index_spec() < n ==> old(
                            registry,
                        ).reserved_paths().contains(
                            #[trigger] normalize(temp_file_path(n as nat, extension_view(extension))),
                        )
                },
            },
    {
        broadcast use {lemma_strings_view_len, lemma_strings_view_index};
        let ghost e = extension_view(extension);
        loop
            invariant
                e == extension_view(extension),
                registry.reserved_paths() == old(registry).reserved_paths(),
                registry.next_index >= old(registry).next_index,
                forall|n: u64|
                    old(registry).next_index < n <= registry.next_index ==> old(
                        registry,
                    ).reserved_paths().contains(#[trigger] normalize(temp_file_path(n as nat, e))),
            decreases u64::MAX - registry.next_index,
        {
            if registry.next_index == u64::MAX {
                return None;
            }
            registry.next_index = registry.next_index + 1;
            let mut cs = to_chars("target/unit_test_support/");
            let digits = format_index(registry.next_index);
            append_chars(&mut cs, &digits);
            match extension {
                Option::None => {},
                Option::Some(e) => {
                    cs.push('.');
                    let ext = to_chars(e);
                    append_chars(&mut cs, &ext);
                },
            }
            proof {
                assert(cs@ =~= temp_file_path(registry.next_index as nat, e));
            }
            let owned = from_chars(&cs);
            let file = FileRef::new(owned.as_str());
            let normalized = to_chars(file.path());
            if !registry.is_reserved(&normalized) {
                let ghost old_reserved = registry.reserved@;
                let path_string = String::from_str(file.path());
                registry.reserved.push(path_string);
                proof {
                    assert(strings_view(registry.reserved@) =~= strings_view(old_reserved).push(
                        file@,
                    ));
                }
                return Some(TempFile(file));
            }
            proof {
                assert(file@ == normalize(temp_file_path(registry.next_index as nat, e)));
                assert(registry.reserved_paths().contains(
                    normalize(temp_file_path(registry.next_index as nat, e)),
                ));
            }
        }
    }

    /// The raw path of the temporary file.
    pub fn path(&self) -> (r: &str)
        ensures
            r@ == self.path_spec(),
    {
        self.0.path()
    }
}

} // verus!

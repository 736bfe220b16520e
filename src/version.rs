//! Compiler versions: the version a source file asks for, and whether this
//! compiler satisfies it.

use vstd::prelude::*;

verus! {

#[derive(Clone, Copy, Debug, PartialEq, Eq, Structural)]
pub struct Version {
    pub major: usize,
    pub minor: usize,
    pub patch: usize,
}

impl Version {
    pub fn new(major: usize, minor: usize, patch: usize) -> (r: Version)
        ensures
            r.major == major,
            r.minor == minor,
            r.patch == patch,
    {
        Version { major, minor, patch }
    }

    pub fn major(&self) -> (r: usize)
        ensures
            r == self.major,
    {
        self.major
    }

    pub fn minor(&self) -> (r: usize)
        ensures
            r == self.minor,
    {
        self.minor
    }

    pub fn patch(&self) -> (r: usize)
        ensures
            r == self.patch,
    {
        self.patch
    }
}

/// A pragma at the top of a source file.
#[derive(Clone, Copy, Debug, PartialEq, Eq, Structural)]
pub enum Pragma {
    Version(Version),
    CustomGates,
    Empty,
}

/// A file asks for a compiler version that this compiler does not satisfy.
#[derive(Clone, Debug)]
pub struct CompilerVersionError {
    pub path: String,
    pub required_version: Version,
    pub version: Version,
}

/// A file names no compiler version; the one in use is assumed.
#[derive(Clone, Debug)]
pub struct NoCompilerVersionWarning {
    pub path: String,
    pub version: Version,
}

/// A source file could not be opened.
#[derive(Clone, Debug)]
pub struct FileOsError {
    pub path: String,
}

/// The project has no main component.
#[derive(Clone, Copy, Debug)]
pub struct NoMainError;

/// The project has more than one main component.
#[derive(Clone, Copy, Debug)]
pub struct MultipleMainError;

/// A compiler of version `compiler` accepts a file that asks for `required`:
/// same major version, and a minor and patch version no newer than its own.
pub open spec fn satisfies(required: Version, compiler: Version) -> bool {
    required.major == compiler.major && (required.minor < compiler.minor || (required.minor
        == compiler.minor && required.patch <= compiler.patch))
}

/// Checks the version a file asks for against the compiler's version: no
/// warning when satisfied, a warning when the file names none, an error when
/// it names one this compiler does not satisfy.
pub fn check_number_version(
    file_path: &str,
    version_file: Option<Version>,
    version_compiler: Version,
) -> (r: Result<Option<NoCompilerVersionWarning>, CompilerVersionError>)
    ensures
        match version_file {
            None => r is Ok && r->Ok_0 is Some && r->Ok_0->0.path@ == file_path@ && r->Ok_0->0.version
                == version_compiler,
            Some(req) => if satisfies(req, version_compiler) {
                r == Ok::<Option<NoCompilerVersionWarning>, CompilerVersionError>(None)
            } else {
                r is Err && r->Err_0.path@ == file_path@ && r->Err_0.required_version == req
                    && r->Err_0.version == version_compiler
            },
        },
{
    match version_file {
        Some(required_version) => {
            if required_version.major() == version_compiler.major() && (required_version.minor()
                < version_compiler.minor() || (required_version.minor() == version_compiler.minor()
                && required_version.patch() <= version_compiler.patch())) {
                Ok(None)
            } else {
                Err(
                    CompilerVersionError {
                        path: file_path.to_owned(),
                        required_version,
                        version: version_compiler,
                    },
                )
            }
        },
        None => Ok(Some(NoCompilerVersionWarning { path: file_path.to_owned(), version: version_compiler })),
    }
}

/// A decimal digit.
pub open spec fn is_digit(c: char) -> bool {
    '0' <= c <= '9'
}

/// A non-empty run of decimal digits.
pub open spec fn is_numeral(s: Seq<char>) -> bool {
    s.len() > 0 && forall|i: int| 0 <= i < s.len() ==> is_digit(#[trigger] s[i])
}

/// The value of a run of decimal digits.
pub open spec fn numeral_value(s: Seq<char>) -> nat
    decreases s.len(),
{
    if s.len() == 0 {
        0
    } else {
        numeral_value(s.drop_last()) * 10 + ((s.last() as u32 - '0' as u32) as nat)
    }
}

/// `s` is `major.minor.patch`, three decimal numerals whose values are `v`'s.
pub open spec fn version_text(s: Seq<char>, v: Version) -> bool {
    exists|i: int, j: int|
        #![trigger s[i], s[j]]
        0 <= i < j < s.len() && s[i] == '.' && s[j] == '.' && is_numeral(s.subrange(0, i))
            && is_numeral(s.subrange(i + 1, j)) && is_numeral(s.subrange(j + 1, s.len() as int))
            && numeral_value(s.subrange(0, i)) == v.major && numeral_value(s.subrange(i + 1, j))
            == v.minor && numeral_value(s.subrange(j + 1, s.len() as int)) == v.patch
}

/// The value of the numeral `s[from..to]`, if it is one and fits in `usize`.
fn parse_numeral(s: &str, from: usize, to: usize) -> (r: Option<usize>)
    requires
        from <= to <= s@.len(),
    ensures
        r is Some <==> is_numeral(s@.subrange(from as int, to as int)) && numeral_value(
            s@.subrange(from as int, to as int),
        ) <= usize::MAX,
        r is Some ==> r->0 == numeral_value(s@.subrange(from as int, to as int)),
{
    if from == to {
        return None;
    }
    let ghost t = s@.subrange(from as int, to as int);
    let mut value: usize = 0;
    let mut k: usize = from;
    while k < to
        invariant
            from <= k <= to <= s@.len(),
            t == s@.subrange(from as int, to as int),
            forall|i: int| from <= i < k ==> is_digit(#[trigger] s@[i]),
            value == numeral_value(s@.subrange(from as int, k as int)),
        decreases to - k,
    {
        let c = s.get_char(k);
        let ghost p = s@.subrange(from as int, k as int + 1);
        proof {
            assert(p.drop_last() =~= s@.subrange(from as int, k as int));
        }
        if !('0' <= c && c <= '9') {
            proof {
                assert(!is_digit(t[k - from]));
            }
            return None;
        }
        let d = (c as u32 - '0' as u32) as usize;
        if value > (usize::MAX - d) / 10 {
            proof {
                assert(t.subrange(0, (k - from + 1) as int) =~= p);
                assert(numeral_value(p) == value * 10 + d);
                assert(value * 10 + d > usize::MAX) by (nonlinear_arith)
                    requires
                        value > (usize::MAX - d) / 10,
                        0 <= d <= 9,
                ;
                if is_numeral(t) {
                    lemma_numeral_prefix_le(t, (k - from + 1) as int);
                }
            }
            return None;
        }
        proof {
            assert(value * 10 + d <= usize::MAX) by (nonlinear_arith)
                requires
                    value <= (usize::MAX - d) / 10,
                    0 <= d <= 9,
            ;
        }
        value = value * 10 + d;
        k = k + 1;
    }
    proof {
        assert(forall|i: int| 0 <= i < t.len() ==> t[i] == s@[from + i]);
    }
    Some(value)
}

/// The first `.` in `s[from..]`.
fn find_dot(s: &str, from: usize) -> (r: Option<usize>)
    requires
        from <= s@.len(),
    ensures
        r is Some ==> from <= r->0 < s@.len() && s@[r->0 as int] == '.' && forall|m: int|
            from <= m < r->0 ==> #[trigger] s@[m] != '.',
        r is None ==> forall|m: int| from <= m < s@.len() ==> #[trigger] s@[m] != '.',
{
    let n = s.unicode_len();
    let mut k: usize = from;
    while k < n
        invariant
            from <= k <= n,
            n == s@.len(),
            forall|m: int| from <= m < k ==> #[trigger] s@[m] != '.',
        decreases n - k,
    {
        if s.get_char(k) == '.' {
            return Some(k);
        }
        k = k + 1;
    }
    None
}

/// Reads a `major.minor.patch` version; `None` when the text is not three
/// dot-separated decimal numerals that each fit in `usize`.
pub fn parse_number_version(version: &str) -> (r: Option<Version>)
    ensures
        r is Some ==> version_text(version@, r->0),
        r is None ==> forall|v: Version| !version_text(version@, v),
{
    let s = version;
    let n = s.unicode_len();
    let i = match find_dot(s, 0) {
        Some(i) => i,
        None => {
            proof {
                assert forall|v: Version| !version_text(s@, v) by {
                    if version_text(s@, v) {
                        let (a, b) = choose|a: int, b: int|
                            #![trigger s@[a], s@[b]]
                            0 <= a < b < s@.len() && s@[a] == '.' && s@[b] == '.';
                        assert(s@[a] != '.');
                    }
                }
            }
            return None;
        },
    };
    let j = match find_dot(s, i + 1) {
        Some(j) => j,
        None => {
            proof {
                assert forall|v: Version| !version_text(s@, v) by {
                    if version_text(s@, v) {
                        let (a, b) = choose|a: int, b: int|
                            #![trigger s@[a], s@[b]]
                            0 <= a < b < s@.len() && s@[a] == '.' && s@[b] == '.' && is_numeral(
                                s@.subrange(0, a),
                            );
                        lemma_first_dot(s@, 0, a, i as int);
                        assert(s@[b] != '.');
                    }
                }
            }
            return None;
        },
    };
    let major = parse_numeral(s, 0, i);
    let minor = parse_numeral(s, i + 1, j);
    let patch = parse_numeral(s, j + 1, n);
    match (major, minor, patch) {
        (Some(a), Some(b), Some(c)) => {
            let v = Version::new(a, b, c);
            proof {
                assert(s@[i as int] == '.' && s@[j as int] == '.');
            }
            Some(v)
        },
        _ => {
            proof {
                assert forall|v: Version| !version_text(s@, v) by {
                    if version_text(s@, v) {
                        let (a, b) = choose|a: int, b: int|
                            #![trigger s@[a], s@[b]]
                            0 <= a < b < s@.len() && s@[a] == '.' && s@[b] == '.' && is_numeral(
                                s@.subrange(0, a),
                            ) && is_numeral(s@.subrange(a + 1, b)) && is_numeral(
                                s@.subrange(b + 1, s@.len() as int),
                            ) && numeral_value(s@.subrange(0, a)) == v.major && numeral_value(
                                s@.subrange(a + 1, b),
                            ) == v.minor && numeral_value(s@.subrange(b + 1, s@.len() as int))
                                == v.patch;
                        lemma_first_dot(s@, 0, a, i as int);
                        lemma_first_dot(s@, i as int + 1, b, j as int);
                    }
                }
            }
            None
        },
    }
}

/// A dot that ends a numeral starting at `from` is the first dot after `from`.
proof fn lemma_first_dot(s: Seq<char>, from: int, a: int, first: int)
    requires
        0 <= from <= a < s.len(),
        s[a] == '.',
        is_numeral(s.subrange(from, a)) || a == from,
        from <= first < s.len(),
        s[first] == '.',
        forall|m: int| from <= m < first ==> #[trigger] s[m] != '.',
    ensures
        a == first,
{
    if a < first {
    } else if a > first {
        assert(is_digit(s.subrange(from, a)[first - from]));
    }
}

/// A prefix of a numeral has a value no larger than the whole.
proof fn lemma_numeral_prefix_le(t: Seq<char>, n: int)
    requires
        0 <= n <= t.len(),
        forall|i: int| 0 <= i < t.len() ==> is_digit(#[trigger] t[i]),
    ensures
        numeral_value(t.subrange(0, n)) <= numeral_value(t),
    decreases t.len() - n,
{
    if n < t.len() {
        lemma_numeral_prefix_le(t, n + 1);
        let p = t.subrange(0, n + 1);
        assert(p.drop_last() =~= t.subrange(0, n));
        let a = numeral_value(t.subrange(0, n));
        assert(a <= a * 10 + ((p.last() as u32 - '0' as u32) as nat));
    } else {
        assert(t.subrange(0, n) =~= t);
    }
}

} // verus!

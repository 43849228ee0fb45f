//! Where the files of a table live: the main record file, the directory of
//! side files and the directory of index files, all below one table
//! directory.
use vstd::prelude::*;
use vstd::string::StringExecFns;
use vstd::string::StrSliceExecFns;

verus! {

/// The character that stands for a decimal digit.
pub open spec fn digit_char(d: nat) -> char
    recommends
        d < 10,
{
    if d == 0 {
        '0'
    } else if d == 1 {
        '1'
    } else if d == 2 {
        '2'
    } else if d == 3 {
        '3'
    } else if d == 4 {
        '4'
    } else if d == 5 {
        '5'
    } else if d == 6 {
        '6'
    } else if d == 7 {
        '7'
    } else if d == 8 {
        '8'
    } else {
        '9'
    }
}

/// The decimal numeral of `n`, without leading zeros.
pub open spec fn decimal(n: nat) -> Seq<char>
    decreases n,
{
    if n < 10 {
        seq![digit_char(n)]
    } else {
        decimal(n / 10).push(digit_char(n % 10))
    }
}

/// The position of the first `/` in `s`, if it has one.
pub open spec fn first_slash(s: Seq<char>) -> Option<int>
    decreases s.len(),
{
    if s.len() == 0 {
        None
    } else if s[0] == '/' {
        Some(0)
    } else {
        match first_slash(s.drop_first()) {
            Some(i) => Some(i + 1),
            None => None,
        }
    }
}

/// `first_slash` finds a `/` exactly where every earlier character is none.
pub proof fn lemma_first_slash(s: Seq<char>, i: int)
    requires
        0 <= i <= s.len(),
        forall|j: int| 0 <= j < i ==> s[j] != '/',
    ensures
        i < s.len() && s[i] == '/' ==> first_slash(s) == Some(i),
        i == s.len() ==> first_slash(s) is None,
    decreases i,
{
    if i == 0 {
    } else {
        let t = s.drop_first();
        assert forall|j: int| 0 <= j < i - 1 implies t[j] != '/' by {
            assert(t[j] == s[j + 1]);
        }
        lemma_first_slash(t, i - 1);
        if i < s.len() {
            assert(t[i - 1] == s[i]);
        }
    }
}

/// The relative name of the main record file.
pub open spec fn main_name() -> Seq<char> {
    "main.bin"@
}

/// The relative name of the side file with identifier `nb`.
pub open spec fn dyn_name(nb: nat) -> Seq<char> {
    "dyn/"@ + decimal(nb) + ".bin"@
}

/// The relative name of the index file called `name`.
pub open spec fn index_name(name: Seq<char>) -> Seq<char> {
    "index/"@ + name + ".bin"@
}

/// The text of one decimal digit.
fn digit_text(d: usize) -> (text: &'static str)
    requires
        d < 10,
    ensures
        text@ == seq![digit_char(d as nat)],
{
    proof {
        reveal_strlit("0");
        reveal_strlit("1");
        reveal_strlit("2");
        reveal_strlit("3");
        reveal_strlit("4");
        reveal_strlit("5");
        reveal_strlit("6");
        reveal_strlit("7");
        reveal_strlit("8");
        reveal_strlit("9");
    }
    let text = if d == 0 {
        "0"
    } else if d == 1 {
        "1"
    } else if d == 2 {
        "2"
    } else if d == 3 {
        "3"
    } else if d == 4 {
        "4"
    } else if d == 5 {
        "5"
    } else if d == 6 {
        "6"
    } else if d == 7 {
        "7"
    } else if d == 8 {
        "8"
    } else {
        "9"
    };
    assert(text@ =~= seq![digit_char(d as nat)]);
    text
}

/// Writes `n` as a decimal numeral.
pub fn decimal_text(n: usize) -> (text: String)
    ensures
        text@ == decimal(n as nat),
{
    let mut rest: usize = n;
    let mut tail: String = String::new();
    while rest >= 10
        invariant
            decimal(n as nat) == decimal(rest as nat) + tail@,
        decreases rest,
    {
        let d: usize = rest % 10;
        let head = String::from_str(digit_text(d));
        proof {
            assert(decimal(rest as nat) == decimal((rest / 10) as nat).push(digit_char(d as nat)));
            assert(decimal((rest / 10) as nat).push(digit_char(d as nat)) + tail@ =~= decimal(
                (rest / 10) as nat,
            ) + (head@ + tail@));
        }
        tail = head.concat(tail.as_str());
        rest = rest / 10;
    }
    let head = String::from_str(digit_text(rest));
    head.concat(tail.as_str())
}

/// The place of one file of a table: the table directory and the name of the
/// file relative to it.
#[derive(Debug, Clone, PartialEq, Eq)]
pub struct BDPath {
    pub dir_path: String,
    pub rel_file_path: String,
}

impl BDPath {
    /// The main record file of the table in directory `path`.
    pub fn new_main_str(path: &str) -> (p: Self)
        ensures
            p.dir_path@ == path@,
            p.rel_file_path@ == main_name(),
    {
        Self { dir_path: String::from_str(path), rel_file_path: String::from_str("main.bin") }
    }

    /// The main record file of the table in directory `path`.
    pub fn new_main(path: String) -> (p: Self)
        ensures
            p.dir_path == path,
            p.rel_file_path@ == main_name(),
    {
        Self { dir_path: path, rel_file_path: String::from_str("main.bin") }
    }

    /// The side file with identifier `nb` of the table in directory `path`.
    pub fn new_dyn(path: String, nb: usize) -> (p: Self)
        ensures
            p.dir_path == path,
            p.rel_file_path@ == dyn_name(nb as nat),
    {
        let name = String::from_str("dyn/").concat(decimal_text(nb).as_str()).concat(".bin");
        Self { dir_path: path, rel_file_path: name }
    }

    /// The index file called `name` of the table in directory `path`.
    pub fn new_index(path: String, name: String) -> (p: Self)
        ensures
            p.dir_path == path,
            p.rel_file_path@ == index_name(name@),
    {
        let rel = String::from_str("index/").concat(name.as_str()).concat(".bin");
        Self { dir_path: path, rel_file_path: rel }
    }

    /// The path of the file itself: directory, `/`, relative name.
    pub open spec fn spec_full(&self) -> Seq<char> {
        self.dir_path@ + seq!['/'] + self.rel_file_path@
    }

    /// The path of the directory of side files.
    pub open spec fn spec_dyn_path(&self) -> Seq<char> {
        self.dir_path@ + "/dyn"@
    }

    /// The path of the directory of index files.
    pub open spec fn spec_index_path(&self) -> Seq<char> {
        self.dir_path@ + "/index"@
    }

    /// The path of the directory that holds the file: the table directory,
    /// followed by the part of the relative name before its first `/`
    /// where it has one.
    pub open spec fn spec_folder(&self) -> Seq<char> {
        match first_slash(self.rel_file_path@) {
            Some(i) => self.dir_path@ + seq!['/'] + self.rel_file_path@.subrange(0, i),
            None => self.dir_path@,
        }
    }

    /// True for the main record file of a table.
    pub open spec fn spec_is_main(&self) -> bool {
        self.rel_file_path@ == main_name()
    }

    pub fn full(&self) -> (text: String)
        ensures
            text@ == self.spec_full(),
    {
        proof {
            reveal_strlit("/");
        }
        let text = self.dir_path.clone().concat("/").concat(self.rel_file_path.as_str());
        assert(text@ =~= self.spec_full());
        text
    }

    pub fn dyn_path(&self) -> (text: String)
        ensures
            text@ == self.spec_dyn_path(),
    {
        self.dir_path.clone().concat("/dyn")
    }

    pub fn folder(&self) -> (text: String)
        ensures
            text@ == self.spec_folder(),
    {
        let rel = self.rel_file_path.as_str();
        let n = rel.unicode_len();
        let mut i: usize = 0;
        while i < n
            invariant
                n == rel@.len(),
                rel@ == self.rel_file_path@,
                i <= n,
                forall|j: int| 0 <= j < i ==> rel@[j] != '/',
            decreases n - i,
        {
            if rel.get_char(i) == '/' {
                proof {
                    lemma_first_slash(rel@, i as int);
                    reveal_strlit("/");
                }
                let text = self.dir_path.clone().concat("/").concat(rel.substring_char(0, i));
                assert(text@ =~= self.spec_folder());
                return text;
            }
            i += 1;
        }
        proof {
            lemma_first_slash(rel@, i as int);
        }
        self.dir_path.clone()
    }

    pub fn index_path(&self) -> (text: String)
        ensures
            text@ == self.spec_index_path(),
    {
        self.dir_path.clone().concat("/index")
    }

    /// Tells whether this is the main record file of a table.
    pub fn is_main(&self) -> (b: bool)
        ensures
            b == self.spec_is_main(),
    {
        let main = String::from_str("main.bin");
        self.rel_file_path == main
    }
}

} // verus!

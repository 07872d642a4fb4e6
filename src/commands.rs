use vstd::prelude::*;

use crate::numbers::{decimal, decimal_text, parse_u32, parse_unsigned};
use crate::path::{DirPath, FilePath, NextDir, Step};

verus! {

pub open spec fn fib(n: nat) -> nat
    decreases n,
{
    if n == 0 {
        0
    } else if n == 1 {
        1
    } else {
        fib((n - 1) as nat) + fib((n - 2) as nat)
    }
}

proof fn lemma_fib_monotonic(i: nat, j: nat)
    requires
        i <= j,
    ensures
        fib(i) <= fib(j),
    decreases j,
{
    if i < j {
        lemma_fib_monotonic(i, (j - 1) as nat);
    }
}

proof fn lemma_fib_93()
    ensures
        fib(93) == 12200160415121876738,
{
    assert(fib(0) == 0);
    assert(fib(1) == 1);
    assert(fib(2) == 1);
    assert(fib(3) == 2);
    assert(fib(4) == 3);
    assert(fib(5) == 5);
    assert(fib(6) == 8);
    assert(fib(7) == 13);
    assert(fib(8) == 21);
    assert(fib(9) == 34);
    assert(fib(10) == 55);
    assert(fib(11) == 89);
    assert(fib(12) == 144);
    assert(fib(13) == 233);
    assert(fib(14) == 377);
    assert(fib(15) == 610);
    assert(fib(16) == 987);
    assert(fib(17) == 1597);
    assert(fib(18) == 2584);
    assert(fib(19) == 4181);
    assert(fib(20) == 6765);
    assert(fib(21) == 10946);
    assert(fib(22) == 17711);
    assert(fib(23) == 28657);
    assert(fib(24) == 46368);
    assert(fib(25) == 75025);
    assert(fib(26) == 121393);
    assert(fib(27) == 196418);
    assert(fib(28) == 317811);
    assert(fib(29) == 514229);
    assert(fib(30) == 832040);
    assert(fib(31) == 1346269);
    assert(fib(32) == 2178309);
    assert(fib(33) == 3524578);
    assert(fib(34) == 5702887);
    assert(fib(35) == 9227465);
    assert(fib(36) == 14930352);
    assert(fib(37) == 24157817);
    assert(fib(38) == 39088169);
    assert(fib(39) == 63245986);
    assert(fib(40) == 102334155);
    assert(fib(41) == 165580141);
    assert(fib(42) == 267914296);
    assert(fib(43) == 433494437);
    assert(fib(44) == 701408733);
    assert(fib(45) == 1134903170);
    assert(fib(46) == 1836311903);
    assert(fib(47) == 2971215073);
    assert(fib(48) == 4807526976);
    assert(fib(49) == 7778742049);
    assert(fib(50) == 12586269025);
    assert(fib(51) == 20365011074);
    assert(fib(52) == 32951280099);
    assert(fib(53) == 53316291173);
    assert(fib(54) == 86267571272);
    assert(fib(55) == 139583862445);
    assert(fib(56) == 225851433717);
    assert(fib(57) == 365435296162);
    assert(fib(58) == 591286729879);
    assert(fib(59) == 956722026041);
    assert(fib(60) == 1548008755920);
    assert(fib(61) == 2504730781961);
    assert(fib(62) == 4052739537881);
    assert(fib(63) == 6557470319842);
    assert(fib(64) == 10610209857723);
    assert(fib(65) == 17167680177565);
    assert(fib(66) == 27777890035288);
    assert(fib(67) == 44945570212853);
    assert(fib(68) == 72723460248141);
    assert(fib(69) == 117669030460994);
    assert(fib(70) == 190392490709135);
    assert(fib(71) == 308061521170129);
    assert(fib(72) == 498454011879264);
    assert(fib(73) == 806515533049393);
    assert(fib(74) == 1304969544928657);
    assert(fib(75) == 2111485077978050);
    assert(fib(76) == 3416454622906707);
    assert(fib(77) == 5527939700884757);
    assert(fib(78) == 8944394323791464);
    assert(fib(79) == 14472334024676221);
    assert(fib(80) == 23416728348467685);
    assert(fib(81) == 37889062373143906);
    assert(fib(82) == 61305790721611591);
    assert(fib(83) == 99194853094755497);
    assert(fib(84) == 160500643816367088);
    assert(fib(85) == 259695496911122585);
    assert(fib(86) == 420196140727489673);
    assert(fib(87) == 679891637638612258);
    assert(fib(88) == 1100087778366101931);
    assert(fib(89) == 1779979416004714189);
    assert(fib(90) == 2880067194370816120);
    assert(fib(91) == 4660046610375530309);
    assert(fib(92) == 7540113804746346429);
    assert(fib(93) == 12200160415121876738);
}

/// The `n`th Fibonacci number; the largest that fits in 64 bits is the 93rd.
pub fn fibonacci(n: u32) -> (r: u64)
    requires
        n <= 93,
    ensures
        r == fib(n as nat),
{
    if n == 0 {
        return 0;
    }
    if n == 1 {
        return 1;
    }
    let mut a: u64 = 0;
    let mut b: u64 = 1;
    let mut k: u32 = 1;
    while k < n
        invariant
            1 <= k <= n <= 93,
            a == fib((k - 1) as nat),
            b == fib(k as nat),
        decreases n - k,
    {
        proof {
            lemma_fib_93();
            lemma_fib_monotonic((k + 1) as nat, 93);
        }
        let temp = a + b;
        a = b;
        b = temp;
        k += 1;
    }
    b
}

/// The arguments joined by single spaces.
pub open spec fn joined(args: Seq<Seq<char>>) -> Seq<char>
    decreases args.len(),
{
    if args.len() == 0 {
        Seq::empty()
    } else if args.len() == 1 {
        args[0]
    } else {
        joined(args.drop_last()) + seq![' '] + args.last()
    }
}

pub open spec fn arg_views(args: Seq<String>) -> Seq<Seq<char>> {
    args.map_values(|a: String| a@)
}

pub struct Hello;

pub struct Info;

pub struct Echo;

pub struct Fib;

pub struct Pwd;

pub struct Ls;

pub struct Cd;

pub struct Cat;

pub struct Rm;

pub struct Mkdir;

pub struct Rmdir;

pub struct Help;

pub struct About;

pub struct Contact;

pub struct Edit;

pub struct Load;

pub struct Save;

pub struct SaveSession;

pub struct LoadSession;

pub struct Pretty;

pub struct Secret;

pub const HELLO_TEXT: &'static str = "Hello from Rust! This command was processed by WebAssembly.";

pub const INFO_TEXT: &'static str = "Rust WebAssembly Info:\n - Compiled with wasm-bindgen\n - Running in your browser\n - Fast and efficient!";

pub const SECRET_USAGE: &'static str = "Usage: secret <password>\n\nYou found my secret hideout, good luck getting in though.";

impl Hello {
    pub fn name(&self) -> (r: &'static str)
        ensures
            r@ == "hello"@,
    {
        "hello"
    }

    pub fn execute(&self) -> (r: String)
        ensures
            r@ == HELLO_TEXT@,
    {
        String::from_str(HELLO_TEXT)
    }
}

impl Info {
    pub fn name(&self) -> (r: &'static str)
        ensures
            r@ == "info"@,
    {
        "info"
    }

    pub fn execute(&self) -> (r: String)
        ensures
            r@ == INFO_TEXT@,
    {
        String::from_str(INFO_TEXT)
    }
}

impl Echo {
    pub fn name(&self) -> (r: &'static str)
        ensures
            r@ == "echo"@,
    {
        "echo"
    }

    /// The arguments joined by single spaces.
    pub fn execute(&self, args: &Vec<String>) -> (r: String)
        ensures
            r@ == joined(arg_views(args@)),
    {
        let ghost av = arg_views(args@);
        let mut out = String::new();
        proof {
            reveal_strlit(" ");
            assert(" "@ =~= seq![' ']);
            assert(av.subrange(0, 0) =~= Seq::<Seq<char>>::empty());
        }
        let mut i: usize = 0;
        while i < args.len()
            invariant
                i <= args.len(),
                av == arg_views(args@),
                " "@ == seq![' '],
                out@ == joined(av.subrange(0, i as int)),
            decreases args.len() - i,
        {
            if i > 0 {
                out.append(" ");
            }
            out.append(args[i].as_str());
            proof {
                assert(av.subrange(0, i + 1).drop_last() =~= av.subrange(0, i as int));
                if i == 0 {
                    assert(Seq::<char>::empty() + av[0] =~= av[0]);
                }
            }
            assert(out@ =~= joined(av.subrange(0, i + 1)));
            i += 1;
        }
        assert(av.subrange(0, av.len() as int) =~= av);
        out
    }
}

/// What `fib` answers for its first argument.
pub open spec fn fib_answer(arg: Option<Seq<char>>) -> Seq<char> {
    match arg {
        None => "Usage: fib <number>"@,
        Some(a) => match parse_unsigned(a, u32::MAX as nat) {
            Some(n) => if n <= 93 {
                "fibonacci("@ + decimal(n) + ") = "@ + decimal(fib(n))
            } else {
                "Please enter a number between 0 and 93"@
            },
            None => "Usage: fib <number>"@,
        },
    }
}

impl Fib {
    pub fn name(&self) -> (r: &'static str)
        ensures
            r@ == "fib"@,
    {
        "fib"
    }

    /// The Fibonacci number of the first argument, from 0 to 93.
    pub fn execute(&self, args: &Vec<String>) -> (r: String)
        ensures
            r@ == fib_answer(if args@.len() > 0 { Some(args@[0]@) } else { None }),
    {
        if args.len() == 0 {
            return String::from_str("Usage: fib <number>");
        }
        match parse_u32(args[0].as_str()) {
            Some(n) => {
                if n <= 93 {
                    let mut r = String::from_str("fibonacci(");
                    r.append(decimal_text(n as u64).as_str());
                    r.append(") = ");
                    r.append(decimal_text(fibonacci(n)).as_str());
                    r
                } else {
                    String::from_str("Please enter a number between 0 and 93")
                }
            },
            None => String::from_str("Usage: fib <number>"),
        }
    }
}

impl Secret {
    pub fn name(&self) -> (r: &'static str)
        ensures
            r@ == "secret"@,
    {
        "secret"
    }

    /// The answer to `secret` without a password.
    pub fn usage(&self) -> (r: String)
        ensures
            r@ == SECRET_USAGE@,
    {
        String::from_str(SECRET_USAGE)
    }
}

impl Pwd {
    pub fn name(&self) -> (r: &'static str)
        ensures
            r@ == "pwd"@,
    {
        "pwd"
    }
}

impl Ls {
    pub fn name(&self) -> (r: &'static str)
        ensures
            r@ == "ls"@,
    {
        "ls"
    }
}

impl Cd {
    pub fn name(&self) -> (r: &'static str)
        ensures
            r@ == "cd"@,
    {
        "cd"
    }
}

impl Cat {
    pub fn name(&self) -> (r: &'static str)
        ensures
            r@ == "cat"@,
    {
        "cat"
    }
}

impl Rm {
    pub fn name(&self) -> (r: &'static str)
        ensures
            r@ == "rm"@,
    {
        "rm"
    }
}

impl Mkdir {
    pub fn name(&self) -> (r: &'static str)
        ensures
            r@ == "mkdir"@,
    {
        "mkdir"
    }
}

impl Rmdir {
    pub fn name(&self) -> (r: &'static str)
        ensures
            r@ == "rmdir"@,
    {
        "rmdir"
    }
}

pub open spec fn is_help_word(a: Seq<char>) -> bool {
    a == "help"@ || a == "-v"@
}

pub open spec fn count_of(args: Seq<Seq<char>>, w: Seq<char>) -> nat
    decreases args.len(),
{
    if args.len() == 0 {
        0
    } else {
        count_of(args.drop_last(), w) + if args.last() == w {
            1nat
        } else {
            0nat
        }
    }
}

/// `A` and a zero-width space, `n` times.
pub open spec fn echo_of_a(n: nat) -> Seq<char>
    decreases n,
{
    if n == 0 {
        Seq::empty()
    } else {
        echo_of_a((n - 1) as nat) + seq!['A', '\u{200B}']
    }
}

/// The arguments that name a help page: neither `-v` nor empty.
pub open spec fn page_args(args: Seq<Seq<char>>) -> Seq<Seq<char>>
    decreases args.len(),
{
    if args.len() == 0 {
        Seq::empty()
    } else if args.last() == "-v"@ || args.last().len() == 0 {
        page_args(args.drop_last())
    } else {
        page_args(args.drop_last()).push(args.last())
    }
}

/// The help page for `args`: the manual of the first command named, in the verbose or the
/// simple manuals; else the general help.
pub open spec fn help_page(args: Seq<Seq<char>>) -> (Seq<Step>, Seq<char>) {
    let verbose = count_of(args, "-v"@) > 0;
    let named = page_args(args);
    if named.len() > 0 {
        (
            seq![Step::In("manuals"@), Step::In(if verbose { "verbose"@ } else { "simple"@ })],
            named[0] + ".txt"@,
        )
    } else if verbose {
        (Seq::empty(), "help-verbose.txt"@)
    } else {
        (Seq::empty(), "help.txt"@)
    }
}

impl Help {
    pub fn name(&self) -> (r: &'static str)
        ensures
            r@ == "help"@,
    {
        "help"
    }

    /// The answer to repeating `help`: with two or more `help` and nothing but `help` and
    /// `-v`, an `A` and a zero-width space eight times per `help`, or twenty-four times with
    /// `-v`. `None` otherwise.
    pub fn repeated_help(&self, args: &Vec<String>) -> (r: Option<String>)
        ensures
            ({
                let av = arg_views(args@);
                let special = forall|i: int| 0 <= i < av.len() ==> is_help_word(#[trigger] av[i]);
                let n = count_of(av, "help"@);
                let per = if count_of(av, "-v"@) > 0 { 24nat } else { 8nat };
                &&& (special && n >= 2) ==> (r matches Some(t) && t@ == echo_of_a(n * per))
                &&& !(special && n >= 2) ==> r is None
            }),
    {
        let ghost av = arg_views(args@);
        let help = String::from_str("help");
        let flag = String::from_str("-v");
        proof {
            reveal_strlit("help");
            reveal_strlit("-v");
            assert("help"@.len() != "-v"@.len());
        }
        let mut special = true;
        let mut count: usize = 0;
        let mut verbose = false;
        let mut i: usize = 0;
        assert(av.subrange(0, 0) =~= Seq::<Seq<char>>::empty());
        while i < args.len()
            invariant
                i <= args.len(),
                av == arg_views(args@),
                help@ == "help"@,
                flag@ == "-v"@,
                "help"@ != "-v"@,
                count == count_of(av.subrange(0, i as int), "help"@),
                count <= i,
                verbose == (count_of(av.subrange(0, i as int), "-v"@) > 0),
                special == (forall|j: int| 0 <= j < i ==> is_help_word(#[trigger] av[j])),
            decreases args.len() - i,
        {
            assert(av.subrange(0, i + 1).drop_last() =~= av.subrange(0, i as int));
            if args[i] == help {
                count += 1;
            } else if args[i] == flag {
                verbose = true;
            } else {
                special = false;
            }
            i += 1;
        }
        assert(av.subrange(0, av.len() as int) =~= av);
        if !(special && count >= 2) {
            return None;
        }
        let per: usize = if verbose { 24 } else { 8 };
        let ghost total = count as nat * per as nat;
        let mut out = String::new();
        proof {
            reveal_strlit("A\u{200B}");
            assert("A\u{200B}"@ =~= seq!['A', '\u{200B}']);
        }
        let mut k: usize = 0;
        while k < count
            invariant
                k <= count,
                count <= args.len(),
                per == 8 || per == 24,
                "A\u{200B}"@ == seq!['A', '\u{200B}'],
                out@ == echo_of_a(k as nat * per as nat),
            decreases count - k,
        {
            let mut m: usize = 0;
            while m < per
                invariant
                    m <= per,
                    per == 8 || per == 24,
                    "A\u{200B}"@ == seq!['A', '\u{200B}'],
                    out@ == echo_of_a(k as nat * per as nat + m as nat),
                decreases per - m,
            {
                out.append("A\u{200B}");
                m += 1;
                assert(k as nat * per as nat + m as nat - 1 == k as nat * per as nat + (m - 1) as nat);
            }
            assert((k + 1) as nat * per as nat == k as nat * per as nat + per as nat) by (nonlinear_arith);
            k += 1;
        }
        Some(out)
    }

    /// The help page to show for `args`; see `help_page`.
    pub fn page(&self, args: &Vec<String>) -> (r: FilePath)
        ensures
            r@ == help_page(arg_views(args@)),
    {
        let ghost av = arg_views(args@);
        let flag = String::from_str("-v");
        let mut verbose = false;
        let mut first: Option<usize> = None;
        let mut i: usize = 0;
        assert(av.subrange(0, 0) =~= Seq::<Seq<char>>::empty());
        while i < args.len()
            invariant
                i <= args.len(),
                av == arg_views(args@),
                flag@ == "-v"@,
                verbose == (count_of(av.subrange(0, i as int), "-v"@) > 0),
                first is None ==> page_args(av.subrange(0, i as int)).len() == 0,
                first matches Some(f) ==> f < i && page_args(av.subrange(0, i as int)).len() > 0
                    && page_args(av.subrange(0, i as int))[0] == av[f as int],
            decreases args.len() - i,
        {
            assert(av.subrange(0, i + 1).drop_last() =~= av.subrange(0, i as int));
            if args[i] == flag {
                verbose = true;
            } else if args[i].unicode_len() > 0 && first.is_none() {
                first = Some(i);
            }
            i += 1;
        }
        assert(av.subrange(0, av.len() as int) =~= av);
        match first {
            Some(f) => {
                let mut dir = DirPath::root();
                let manuals = String::from_str("manuals");
                let kind = if verbose {
                    String::from_str("verbose")
                } else {
                    String::from_str("simple")
                };
                let ghost kv = kind@;
                dir.0.push(NextDir::In(manuals));
                assert(dir@ =~= seq![Step::In("manuals"@)]);
                dir.0.push(NextDir::In(kind));
                assert(dir@ =~= seq![Step::In("manuals"@), Step::In(kv)]);
                let mut file = args[f].clone();
                file.append(".txt");
                let r = FilePath::new(dir, file);
                assert(r@.0 =~= help_page(av).0);
                r
            },
            None => {
                let name = if verbose {
                    String::from_str("help-verbose.txt")
                } else {
                    String::from_str("help.txt")
                };
                FilePath::new(DirPath::root(), name)
            },
        }
    }
}

impl About {
    pub fn name(&self) -> (r: &'static str)
        ensures
            r@ == "about"@,
    {
        "about"
    }
}

impl Contact {
    pub fn name(&self) -> (r: &'static str)
        ensures
            r@ == "contact"@,
    {
        "contact"
    }
}

impl Edit {
    pub fn name(&self) -> (r: &'static str)
        ensures
            r@ == "edit"@,
    {
        "edit"
    }
}

impl Load {
    pub fn name(&self) -> (r: &'static str)
        ensures
            r@ == "load"@,
    {
        "load"
    }
}

impl Save {
    pub fn name(&self) -> (r: &'static str)
        ensures
            r@ == "save"@,
    {
        "save"
    }
}

impl SaveSession {
    pub fn name(&self) -> (r: &'static str)
        ensures
            r@ == "save-session"@,
    {
        "save-session"
    }
}

impl LoadSession {
    pub fn name(&self) -> (r: &'static str)
        ensures
            r@ == "load-session"@,
    {
        "load-session"
    }
}

impl Pretty {
    pub fn name(&self) -> (r: &'static str)
        ensures
            r@ == "pretty"@,
    {
        "pretty"
    }
}

} // verus!

//! Reading the command line: the options `--ip`, `--port`, `--www` (each
//! with a value, as `--name value` or `--name=value`) and the flags `-h`
//! and `--help`.

use vstd::prelude::*;
use crate::bytes::{lemma_index_of_from, append_bytes, bytes_eq, index_of_byte, index_of_from, slice_bytes};
use crate::http::{all_digits, digits_value, text_bytes};
use vstd::string::StringSliceAdditionalSpecFns;

verus! {

/// An option the server knows.
#[derive(PartialEq, Eq, Structural, Clone, Copy, Debug)]
pub enum OptName {
    Ip,
    Port,
    Www,
    H,
    Help,
}

/// The bytes of "ip".
pub open spec fn name_ip() -> Seq<u8> {
    seq![105u8, 112u8]
}

/// The bytes of "port".
pub open spec fn name_port() -> Seq<u8> {
    seq![112u8, 111u8, 114u8, 116u8]
}

/// The bytes of "www".
pub open spec fn name_www() -> Seq<u8> {
    seq![119u8, 119u8, 119u8]
}

/// The bytes of "help".
pub open spec fn name_help() -> Seq<u8> {
    seq![104u8, 101u8, 108u8, 112u8]
}

/// The name an option is reported under.
pub open spec fn opt_text(o: OptName) -> Seq<u8> {
    match o {
        OptName::Ip => name_ip(),
        OptName::Port => name_port(),
        OptName::Www => name_www(),
        OptName::H => seq![104u8],
        OptName::Help => name_help(),
    }
}

/// The option a long name ("--name") stands for.
pub open spec fn long_option(name: Seq<u8>) -> Option<OptName> {
    if name == name_ip() {
        Some(OptName::Ip)
    } else if name == name_port() {
        Some(OptName::Port)
    } else if name == name_www() {
        Some(OptName::Www)
    } else if name == name_help() {
        Some(OptName::Help)
    } else {
        None
    }
}

/// Whether an option takes a value.
pub open spec fn takes_value(o: OptName) -> bool {
    o == OptName::Ip || o == OptName::Port || o == OptName::Www
}

/// Why a command line was refused.
#[derive(PartialEq, Eq, Structural, Clone, Copy, Debug)]
pub enum ArgErrorKind {
    /// An option that takes a value came last, without one.
    ArgumentMissing,
    /// An option the server does not know.
    UnrecognizedOption,
    /// An option given more than once.
    OptionDuplicated,
    /// A flag given a value.
    UnexpectedArgument,
}

/// A refused command line: why, and the option's name.
pub type ArgErrorView = (ArgErrorKind, Seq<u8>);

/// One option as given: which, and its value if it takes one.
pub type Occurrence = (OptName, Option<Seq<u8>>);

/// The length of the UTF-8 character whose first byte is `b`.
pub open spec fn char_width(b: u8) -> int {
    if b < 0x80 {
        1
    } else if b >= 0xF0 {
        4
    } else if b >= 0xE0 {
        3
    } else {
        2
    }
}

/// The character of `s` that starts at `k` (cut short at the end of `s`).
pub open spec fn char_at(s: Seq<u8>, k: int) -> Seq<u8> {
    let e = if k + char_width(s[k]) <= s.len() {
        k + char_width(s[k])
    } else {
        s.len() as int
    };
    s.subrange(k, e)
}

/// The first index in `s` at or after `k` of a byte other than 'h'.
pub open spec fn first_non_h(s: Seq<u8>, k: int) -> Option<int>
    decreases s.len() - k,
{
    if k < 0 || k >= s.len() {
        None
    } else if s[k] != 104u8 {
        Some(k)
    } else {
        first_non_h(s, k + 1)
    }
}

/// `n` occurrences of the flag `-h`.
pub open spec fn h_flags(n: nat) -> Seq<Occurrence> {
    Seq::new(n, |i: int| (OptName::H, None::<Seq<u8>>))
}

/// The options given in `args` from index `i` on, after `occ`; or why the
/// command line is refused. An argument that is "-" alone or does not start
/// with '-' is not an option; "--" ends the options; "--name" and
/// "--name=value" give a long option (the value runs to the next '=');
/// "-hh..." gives short flags, of which only 'h' is known.
pub open spec fn scan_args(args: Seq<Seq<u8>>, i: int, occ: Seq<Occurrence>) -> Result<Seq<Occurrence>, ArgErrorView>
    decreases args.len() - i,
{
    if i < 0 || i >= args.len() {
        Ok(occ)
    } else {
        let a = args[i];
        if !(a.len() > 1 && a[0] == 45u8) {
            scan_args(args, i + 1, occ)
        } else if a == seq![45u8, 45u8] {
            Ok(occ)
        } else if a[1] == 45u8 {
            let tail = a.subrange(2, a.len() as int);
            let (name, value) = match index_of_from(tail, 61u8, 0) {
                None => (tail, None::<Seq<u8>>),
                Some(e) => {
                    let end = match index_of_from(tail, 61u8, e + 1) {
                        Some(e2) => e2,
                        None => tail.len() as int,
                    };
                    (tail.subrange(0, e), Some(tail.subrange(e + 1, end)))
                },
            };
            match long_option(name) {
                None => Err((ArgErrorKind::UnrecognizedOption, name)),
                Some(o) => if !takes_value(o) {
                    if value is Some {
                        Err((ArgErrorKind::UnexpectedArgument, name))
                    } else {
                        scan_args(args, i + 1, occ.push((o, None)))
                    }
                } else {
                    match value {
                        Some(v) => scan_args(args, i + 1, occ.push((o, Some(v)))),
                        None => if i + 1 >= args.len() {
                            Err((ArgErrorKind::ArgumentMissing, name))
                        } else {
                            scan_args(args, i + 2, occ.push((o, Some(args[i + 1]))))
                        },
                    }
                },
            }
        } else {
            let shorts = a.subrange(1, a.len() as int);
            match first_non_h(shorts, 0) {
                Some(k) => Err((ArgErrorKind::UnrecognizedOption, char_at(shorts, k))),
                None => scan_args(args, i + 1, occ + h_flags(shorts.len())),
            }
        }
    }
}

/// How often `o` occurs in `occ`.
pub open spec fn count_of(occ: Seq<Occurrence>, o: OptName) -> nat
    decreases occ.len(),
{
    if occ.len() == 0 {
        0
    } else {
        count_of(occ.drop_last(), o) + if occ.last().0 == o {
            1nat
        } else {
            0nat
        }
    }
}

/// The value of the first occurrence of `o` in `occ`.
pub open spec fn first_value(occ: Seq<Occurrence>, o: OptName) -> Option<Seq<u8>>
    decreases occ.len(),
{
    if occ.len() == 0 {
        None
    } else {
        match first_value(occ.drop_last(), o) {
            Some(v) => Some(v),
            None => if occ.last().0 == o {
                occ.last().1
            } else {
                None
            },
        }
    }
}

/// The first option, in the order ip, port, www, h, help, given more than
/// once.
pub open spec fn duplicated(occ: Seq<Occurrence>) -> Option<OptName> {
    if count_of(occ, OptName::Ip) > 1 {
        Some(OptName::Ip)
    } else if count_of(occ, OptName::Port) > 1 {
        Some(OptName::Port)
    } else if count_of(occ, OptName::Www) > 1 {
        Some(OptName::Www)
    } else if count_of(occ, OptName::H) > 1 {
        Some(OptName::H)
    } else if count_of(occ, OptName::Help) > 1 {
        Some(OptName::Help)
    } else {
        None
    }
}

/// The number a port value stands for: an optional '+' and then decimal
/// digits, no more than fit in 64 bits.
pub open spec fn parse_number(v: Seq<u8>) -> Option<u64> {
    let d = if v.len() > 0 && v[0] == 43u8 {
        v.drop_first()
    } else {
        v
    };
    if d.len() > 0 && all_digits(d) && digits_value(d) <= u64::MAX {
        Some(digits_value(d) as u64)
    } else {
        None
    }
}

/// The bytes of "127.0.0.1", the address listened on by default.
pub open spec fn default_ip() -> Seq<u8> {
    seq![49u8, 50u8, 55u8, 46u8, 48u8, 46u8, 48u8, 46u8, 49u8]
}

/// The port listened on by default.
pub const DEFAULT_PORT: u64 = 4414;

/// The bytes of "./www", the directory served by default.
pub open spec fn default_www() -> Seq<u8> {
    seq![46u8, 47u8, 119u8, 119u8, 119u8]
}

/// What a command line asks for.
pub enum ArgsOutcome {
    /// Serve `www` on `ip` and `port`.
    Run { ip: Vec<u8>, port: u64, www: Vec<u8> },
    /// Print the usage text.
    Help,
    /// The command line was refused.
    Refused { kind: ArgErrorKind, name: Vec<u8> },
    /// The port is not a number.
    BadPort,
}

/// What a command line asks for, as plain values.
pub enum ArgsView {
    Run { ip: Seq<u8>, port: u64, www: Seq<u8> },
    Help,
    Refused(ArgErrorView),
    BadPort,
}

impl ArgsOutcome {
    pub open spec fn view(&self) -> ArgsView {
        match self {
            ArgsOutcome::Run { ip, port, www } => ArgsView::Run { ip: ip@, port: *port, www: www@ },
            ArgsOutcome::Help => ArgsView::Help,
            ArgsOutcome::Refused { kind, name } => ArgsView::Refused((*kind, name@)),
            ArgsOutcome::BadPort => ArgsView::BadPort,
        }
    }
}

/// What the arguments after the program's name ask for: a refusal when
/// they cannot be read or give an option twice; else the usage text when
/// `-h` or `--help` is given; else the address, port and directory to
/// serve, each given or by default, unless the port is not a number.
pub open spec fn args_outcome(args: Seq<Seq<u8>>) -> ArgsView {
    match scan_args(args, 0, Seq::empty()) {
        Err(e) => ArgsView::Refused(e),
        Ok(occ) => match duplicated(occ) {
            Some(o) => ArgsView::Refused((ArgErrorKind::OptionDuplicated, opt_text(o))),
            None => if count_of(occ, OptName::H) > 0 || count_of(occ, OptName::Help) > 0 {
                ArgsView::Help
            } else {
                let port = match first_value(occ, OptName::Port) {
                    None => Some(DEFAULT_PORT),
                    Some(v) => parse_number(v),
                };
                match port {
                    None => ArgsView::BadPort,
                    Some(p) => ArgsView::Run {
                        ip: match first_value(occ, OptName::Ip) {
                            Some(v) => v,
                            None => default_ip(),
                        },
                        port: p,
                        www: match first_value(occ, OptName::Www) {
                            Some(v) => v,
                            None => default_www(),
                        },
                    },
                }
            },
        },
    }
}

proof fn lemma_digits_value_step(s: Seq<u8>, a: int, b: int)
    requires
        0 <= a < b <= s.len(),
    ensures
        digits_value(s.subrange(a, b)) == digits_value(s.subrange(a, b - 1)) * 10 + (s[b - 1] - 48),
{
    assert(s.subrange(a, b).drop_last() =~= s.subrange(a, b - 1));
}

proof fn lemma_digits_value_grows(s: Seq<u8>, a: int, k: int)
    requires
        0 <= a <= k <= s.len(),
        all_digits(s.subrange(a, s.len() as int)),
    ensures
        digits_value(s.subrange(a, s.len() as int)) >= digits_value(s.subrange(a, k)),
        digits_value(s.subrange(a, k)) >= 0,
    decreases s.len() - k,
{
    assert(s.subrange(a, k) =~= s.subrange(a, s.len() as int).subrange(0, k - a));
    lemma_digits_value_nonneg(s.subrange(a, k), s.subrange(a, s.len() as int), k - a);
    if k < s.len() {
        lemma_digits_value_step(s, a, k + 1);
        assert(s.subrange(a, s.len() as int)[k - a] == s[k]);
        lemma_digits_value_grows(s, a, k + 1);
    }
}

proof fn lemma_digits_value_nonneg(t: Seq<u8>, whole: Seq<u8>, n: int)
    requires
        all_digits(whole),
        0 <= n <= whole.len(),
        t == whole.subrange(0, n),
    ensures
        digits_value(t) >= 0,
    decreases n,
{
    if n > 0 {
        assert(t.drop_last() =~= whole.subrange(0, n - 1));
        lemma_digits_value_nonneg(t.drop_last(), whole, n - 1);
        assert(t.last() == whole[n - 1]);
    }
}

/// The number a port value stands for.
pub fn parse_number_bytes(v: &Vec<u8>) -> (r: Option<u64>)
    ensures
        r == parse_number(v@),
{
    let start: usize = if v.len() > 0 && v[0] == 43u8 {
        1
    } else {
        0
    };
    let ghost d = if v@.len() > 0 && v@[0] == 43u8 {
        v@.drop_first()
    } else {
        v@
    };
    assert(d =~= v@.subrange(start as int, v@.len() as int));
    if start >= v.len() {
        return None;
    }
    let mut acc: u128 = 0;
    let mut i: usize = start;
    assert(v@.subrange(start as int, start as int) =~= Seq::<u8>::empty());
    while i < v.len()
        invariant
            start <= i <= v.len(),
            start < v.len(),
            d == v@.subrange(start as int, v@.len() as int),
            d == (if v@.len() > 0 && v@[0] == 43u8 {
                v@.drop_first()
            } else {
                v@
            }),
            acc == digits_value(v@.subrange(start as int, i as int)),
            acc <= u64::MAX,
            all_digits(v@.subrange(start as int, i as int)),
        decreases v.len() - i,
    {
        let b = v[i];
        if b < 48u8 || b > 57u8 {
            assert(d[i - start] == b);
            assert(!all_digits(d));
            return None;
        }
        proof {
            lemma_digits_value_step(v@, start as int, i + 1);
        }
        acc = acc * 10 + (b - 48u8) as u128;
        i = i + 1;
        assert(all_digits(v@.subrange(start as int, i as int))) by {
            assert forall|k: int| 0 <= k < i - start implies 48 <= #[trigger] v@.subrange(start as int, i as int)[k] <= 57 by {
                if k < i - 1 - start {
                    assert(v@.subrange(start as int, i as int)[k] == v@.subrange(start as int, i - 1)[k]);
                }
            }
        }
        if acc > 0xffff_ffff_ffff_ffffu128 {
            proof {
                if all_digits(d) {
                    lemma_digits_value_grows(v@, start as int, i as int);
                    assert(digits_value(d) > u64::MAX);
                }
            }
            return None;
        }
    }
    Some(acc as u64)
}

/// What has been seen of each option: how often (counting up to two) and
/// the first value of each option that takes one.
struct OptState {
    ip: u8,
    port: u8,
    www: u8,
    h: u8,
    help: u8,
    first_ip: Option<Vec<u8>>,
    first_port: Option<Vec<u8>>,
    first_www: Option<Vec<u8>>,
}

/// `n`, counted up to two.
spec fn capped(n: nat) -> nat {
    if n > 2 {
        2
    } else {
        n
    }
}

spec fn opt_value(v: Option<Vec<u8>>) -> Option<Seq<u8>> {
    match v {
        Some(x) => Some(x@),
        None => None,
    }
}

impl OptState {
    spec fn matches(&self, occ: Seq<Occurrence>) -> bool {
        &&& self.ip == capped(count_of(occ, OptName::Ip))
        &&& self.port == capped(count_of(occ, OptName::Port))
        &&& self.www == capped(count_of(occ, OptName::Www))
        &&& self.h == capped(count_of(occ, OptName::H))
        &&& self.help == capped(count_of(occ, OptName::Help))
        &&& opt_value(self.first_ip) == first_value(occ, OptName::Ip)
        &&& opt_value(self.first_port) == first_value(occ, OptName::Port)
        &&& opt_value(self.first_www) == first_value(occ, OptName::Www)
    }

    fn new() -> (st: Self)
        ensures
            st.matches(Seq::empty()),
    {
        OptState {
            ip: 0,
            port: 0,
            www: 0,
            h: 0,
            help: 0,
            first_ip: None,
            first_port: None,
            first_www: None,
        }
    }

    fn add(&mut self, o: OptName, value: Option<Vec<u8>>, Ghost(occ): Ghost<Seq<Occurrence>>)
        requires
            old(self).matches(occ),
        ensures
            final(self).matches(occ.push((o, opt_value(value)))),
    {
        let ghost n = occ.push((o, opt_value(value)));
        assert(n.drop_last() =~= occ);
        match o {
            OptName::Ip => {
                if self.ip < 2 {
                    self.ip = self.ip + 1;
                }
                if self.first_ip.is_none() {
                    self.first_ip = value;
                }
            },
            OptName::Port => {
                if self.port < 2 {
                    self.port = self.port + 1;
                }
                if self.first_port.is_none() {
                    self.first_port = value;
                }
            },
            OptName::Www => {
                if self.www < 2 {
                    self.www = self.www + 1;
                }
                if self.first_www.is_none() {
                    self.first_www = value;
                }
            },
            OptName::H => {
                if self.h < 2 {
                    self.h = self.h + 1;
                }
            },
            OptName::Help => {
                if self.help < 2 {
                    self.help = self.help + 1;
                }
            },
        }
    }

    fn add_h_flags(&mut self, count: usize, Ghost(occ): Ghost<Seq<Occurrence>>)
        requires
            old(self).matches(occ),
        ensures
            final(self).matches(occ + h_flags(count as nat)),
    {
        let mut k: usize = 0;
        assert(occ + h_flags(0) =~= occ);
        while k < count
            invariant
                k <= count,
                self.matches(occ + h_flags(k as nat)),
            decreases count - k,
        {
            proof {
                assert(occ + h_flags((k + 1) as nat) =~= (occ + h_flags(k as nat)).push(
                    (OptName::H, None::<Seq<u8>>),
                ));
            }
            self.add(OptName::H, None, Ghost(occ + h_flags(k as nat)));
            k = k + 1;
        }
    }
}

fn long_option_of(name: &Vec<u8>) -> (r: Option<OptName>)
    ensures
        r == long_option(name@),
{
    let ip: Vec<u8> = vec![105u8, 112u8];
    let port: Vec<u8> = vec![112u8, 111u8, 114u8, 116u8];
    let www: Vec<u8> = vec![119u8, 119u8, 119u8];
    let help: Vec<u8> = vec![104u8, 101u8, 108u8, 112u8];
    assert(ip@ =~= name_ip());
    assert(port@ =~= name_port());
    assert(www@ =~= name_www());
    assert(help@ =~= name_help());
    if bytes_eq(name, &ip) {
        Some(OptName::Ip)
    } else if bytes_eq(name, &port) {
        Some(OptName::Port)
    } else if bytes_eq(name, &www) {
        Some(OptName::Www)
    } else if bytes_eq(name, &help) {
        Some(OptName::Help)
    } else {
        None
    }
}

fn first_non_h_of(s: &Vec<u8>) -> (r: Option<usize>)
    ensures
        match r {
            Some(k) => first_non_h(s@, 0) == Some(k as int) && k < s.len(),
            None => first_non_h(s@, 0) is None,
        },
{
    let mut k: usize = 0;
    while k < s.len()
        invariant
            k <= s.len(),
            first_non_h(s@, 0) == first_non_h(s@, k as int),
        decreases s.len() - k,
    {
        if s[k] != 104u8 {
            return Some(k);
        }
        k = k + 1;
    }
    None
}

fn char_at_of(s: &Vec<u8>, k: usize) -> (r: Vec<u8>)
    requires
        k < s.len(),
    ensures
        r@ == char_at(s@, k as int),
{
    let b = s[k];
    let w: usize = if b < 0x80u8 {
        1
    } else if b >= 0xF0u8 {
        4
    } else if b >= 0xE0u8 {
        3
    } else {
        2
    };
    let e = if w <= s.len() - k {
        k + w
    } else {
        s.len()
    };
    slice_bytes(s, k, e)
}

fn opt_name_bytes(o: OptName) -> (r: Vec<u8>)
    ensures
        r@ == opt_text(o),
{
    let r: Vec<u8> = match o {
        OptName::Ip => vec![105u8, 112u8],
        OptName::Port => vec![112u8, 111u8, 114u8, 116u8],
        OptName::Www => vec![119u8, 119u8, 119u8],
        OptName::H => vec![104u8],
        OptName::Help => vec![104u8, 101u8, 108u8, 112u8],
    };
    assert(r@ =~= opt_text(o));
    r
}


/// What the arguments after the program's name ask for.
pub fn get_args(args: &Vec<Vec<u8>>) -> (r: ArgsOutcome)
    ensures
        r.view() == args_outcome(args@.map_values(|a: Vec<u8>| a@)),
{
    let ghost av = args@.map_values(|a: Vec<u8>| a@);
    let mut st = OptState::new();
    let ghost mut occ: Seq<Occurrence> = Seq::empty();
    let mut i: usize = 0;
    while i < args.len()
        invariant
            i <= args.len(),
            av == args@.map_values(|a: Vec<u8>| a@),
            st.matches(occ),
            scan_args(av, i as int, occ) == scan_args(av, 0, Seq::empty()),
        decreases args.len() - i,
    {
        let a = &args[i];
        assert(av[i as int] == a@);
        if !(a.len() > 1 && a[0] == 45u8) {
            i = i + 1;
        } else if a.len() == 2 && a[1] == 45u8 {
            assert(a@ =~= seq![45u8, 45u8]);
            i = args.len();
        } else if a[1] == 45u8 {
            assert(a@ != seq![45u8, 45u8]);
            let tail = slice_bytes(a, 2, a.len());
            proof {
                lemma_index_of_from(tail@, 61u8, 0);
            }
            let (name, value) = match index_of_byte(&tail, 61u8, 0) {
                None => (tail.clone(), None),
                Some(e) => {
                    proof {
                        lemma_index_of_from(tail@, 61u8, e + 1);
                    }
                    let end = match index_of_byte(&tail, 61u8, e + 1) {
                        Some(e2) => e2,
                        None => tail.len(),
                    };
                    (slice_bytes(&tail, 0, e), Some(slice_bytes(&tail, e + 1, end)))
                },
            };
            assert(name@ =~= tail@ || index_of_from(tail@, 61u8, 0) is Some);
            match long_option_of(&name) {
                None => {
                    return ArgsOutcome::Refused { kind: ArgErrorKind::UnrecognizedOption, name };
                },
                Some(o) => {
                    if o == OptName::Help {
                        if value.is_some() {
                            return ArgsOutcome::Refused {
                                kind: ArgErrorKind::UnexpectedArgument,
                                name,
                            };
                        }
                        st.add(o, None, Ghost(occ));
                        proof {
                            occ = occ.push((o, None::<Seq<u8>>));
                        }
                        i = i + 1;
                    } else {
                        match value {
                            Some(v) => {
                                let ghost vv = v@;
                                st.add(o, Some(v), Ghost(occ));
                                proof {
                                    occ = occ.push((o, Some(vv)));
                                }
                                i = i + 1;
                            },
                            None => {
                                if i + 1 >= args.len() {
                                    return ArgsOutcome::Refused {
                                        kind: ArgErrorKind::ArgumentMissing,
                                        name,
                                    };
                                }
                                let v = args[i + 1].clone();
                                assert(v@ =~= av[i + 1]);
                                st.add(o, Some(v), Ghost(occ));
                                proof {
                                    occ = occ.push((o, Some(av[i + 1])));
                                }
                                i = i + 2;
                            },
                        }
                    }
                },
            }
        } else {
            let shorts = slice_bytes(a, 1, a.len());
            match first_non_h_of(&shorts) {
                Some(k) => {
                    let name = char_at_of(&shorts, k);
                    return ArgsOutcome::Refused { kind: ArgErrorKind::UnrecognizedOption, name };
                },
                None => {
                    st.add_h_flags(shorts.len(), Ghost(occ));
                    proof {
                        occ = occ + h_flags(shorts@.len());
                    }
                    i = i + 1;
                },
            }
        }
    }
    let dup = if st.ip > 1 {
        Some(OptName::Ip)
    } else if st.port > 1 {
        Some(OptName::Port)
    } else if st.www > 1 {
        Some(OptName::Www)
    } else if st.h > 1 {
        Some(OptName::H)
    } else if st.help > 1 {
        Some(OptName::Help)
    } else {
        None
    };
    match dup {
        Some(o) => {
            return ArgsOutcome::Refused {
                kind: ArgErrorKind::OptionDuplicated,
                name: opt_name_bytes(o),
            };
        },
        None => {},
    }
    if st.h > 0 || st.help > 0 {
        return ArgsOutcome::Help;
    }
    let port = match &st.first_port {
        None => Some(DEFAULT_PORT),
        Some(v) => parse_number_bytes(v),
    };
    match port {
        None => ArgsOutcome::BadPort,
        Some(p) => {
            let ip = match st.first_ip {
                Some(v) => v,
                None => {
                    let d: Vec<u8> = vec![49u8, 50u8, 55u8, 46u8, 48u8, 46u8, 48u8, 46u8, 49u8];
                    assert(d@ =~= default_ip());
                    d
                },
            };
            let www = match st.first_www {
                Some(v) => v,
                None => {
                    let d: Vec<u8> = vec![46u8, 47u8, 119u8, 119u8, 119u8];
                    assert(d@ =~= default_www());
                    d
                },
            };
            ArgsOutcome::Run { ip, port: p, www }
        },
    }
}

/// The first line of the usage text, before the program's name.
pub const USAGE_START: &'static str = "Usage: ";

/// The rest of the usage text, after the program's name.
pub const USAGE_REST: &'static str = " [options]\n--ip     \tIP address, \"127.0.0.1\" by default.\n--port   \tport number, \"4414\" by default.\n--www    \tworking directory, \"./www\" by default\n-h --help \tUsage\n";

/// The usage text for the program called `program`.
pub open spec fn usage(program: Seq<u8>) -> Seq<u8> {
    USAGE_START.spec_bytes() + program + USAGE_REST.spec_bytes()
}

/// The usage text for the program called `program`.
pub fn usage_text(program: &Vec<u8>) -> (r: Vec<u8>)
    ensures
        r@ == usage(program@),
{
    let mut r = text_bytes(USAGE_START);
    append_bytes(&mut r, program);
    append_bytes(&mut r, &text_bytes(USAGE_REST));
    r
}

/// The text before the option's name when its value is missing.
pub const MISSING_START: &'static str = "Argument to option '";
/// The text after the option's name when its value is missing.
pub const MISSING_END: &'static str = "' missing.";
/// The text before an unknown option's name.
pub const UNRECOGNIZED_START: &'static str = "Unrecognized option: '";
/// The text after an unknown option's name.
pub const UNRECOGNIZED_END: &'static str = "'.";
/// The text before the name of an option given twice, or of a flag given a
/// value.
pub const OPTION_START: &'static str = "Option '";
/// The text after the name of an option given twice.
pub const DUPLICATED_END: &'static str = "' given more than once.";
/// The text after the name of a flag given a value.
pub const UNEXPECTED_END: &'static str = "' does not take an argument.";

/// The message for a refused command line.
pub open spec fn refusal(kind: ArgErrorKind, name: Seq<u8>) -> Seq<u8> {
    match kind {
        ArgErrorKind::ArgumentMissing => MISSING_START.spec_bytes() + name + MISSING_END.spec_bytes(),
        ArgErrorKind::UnrecognizedOption => UNRECOGNIZED_START.spec_bytes() + name
            + UNRECOGNIZED_END.spec_bytes(),
        ArgErrorKind::OptionDuplicated => OPTION_START.spec_bytes() + name
            + DUPLICATED_END.spec_bytes(),
        ArgErrorKind::UnexpectedArgument => OPTION_START.spec_bytes() + name
            + UNEXPECTED_END.spec_bytes(),
    }
}

/// The message for a refused command line.
pub fn refusal_message(kind: ArgErrorKind, name: &Vec<u8>) -> (r: Vec<u8>)
    ensures
        r@ == refusal(kind, name@),
{
    let (start, end) = match kind {
        ArgErrorKind::ArgumentMissing => (MISSING_START, MISSING_END),
        ArgErrorKind::UnrecognizedOption => (UNRECOGNIZED_START, UNRECOGNIZED_END),
        ArgErrorKind::OptionDuplicated => (OPTION_START, DUPLICATED_END),
        ArgErrorKind::UnexpectedArgument => (OPTION_START, UNEXPECTED_END),
    };
    let mut r = text_bytes(start);
    append_bytes(&mut r, name);
    append_bytes(&mut r, &text_bytes(end));
    r
}

} // verus!

//! What the command line asks for.
use crate::order::{
    first_twin, has_twins, is_first_twin, keys, lemma_map_multiset, lemma_name_key,
    lemma_name_le_total, lemma_twins_same, name_key, name_le, name_order, no_twins, path_le, sort,
    Order, Sorted,
};
use crate::text::{
    chars, copied, is_white_space, law_trim_start, lemma_run, lemma_run_is, run, space_run, trim_start,
    white_space,
};
use vstd::prelude::*;

verus! {

/// How sources are built.
#[derive(Debug)]
pub struct Options {
    /// What structured data is indented with, if it is.
    pub pretty_print: Option<&'static str>,
    pub compression: Compression,
    pub features: Features,
}

/// How much output data is compressed.
#[derive(Clone, Copy, Debug, PartialEq, Eq, Structural)]
pub enum Compression {
    Off,
    Normal,
    Max,
}

/// Which kinds of sources are built; others are copied.
#[derive(Clone, Copy, Debug, PartialEq, Eq, Structural)]
pub struct Features {
    pub svg: bool,
    pub toml: bool,
}

/// What structured data is indented with.
#[derive(Clone, Copy, Debug, PartialEq, Eq, Structural)]
pub enum Indent {
    Spaces(usize),
    Tabs,
}

/// Why a text does not say what to indent with.
#[derive(Clone, Copy, Debug, PartialEq, Eq, Structural)]
pub enum IndentError {
    /// It is not a number that can be counted to.
    NotANumber,
    /// It is more than 32 spaces.
    TooWide,
}

/// The characters of an indentation.
pub open spec fn indent_text(indent: Indent) -> Seq<char> {
    match indent {
        Indent::Tabs => seq!['\t'],
        Indent::Spaces(n) => Seq::new(n as nat, |i: int| ' '),
    }
}

impl Indent {
    /// The characters of the indentation, of which there are at most 32.
    pub fn get(self) -> (r: &'static str)
        requires
            self matches Indent::Spaces(n) ==> n <= 32,
        ensures
            r@ == indent_text(self),
    {
        match self {
            Indent::Tabs => {
                proof {
                    reveal_strlit("\t");
                }
                assert("\t"@ =~= seq!['\t']);
                "\t"
            },
            Indent::Spaces(n) => {
                let spaces = "                                ";
                proof {
                    reveal_strlit("                                ");
                    vstd::string::is_ascii_spec_bytes(spaces);
                }
                let r = spaces.substring_char(0, n);
                assert(r@ =~= indent_text(self));
                r
            },
        }
    }
}

impl Default for Indent {
    fn default() -> (r: Self)
        ensures
            r == Indent::Spaces(4),
    {
        Indent::Spaces(4)
    }
}

/// The characters without the white space at both ends.
pub open spec fn trimmed(s: Seq<char>) -> Seq<char> {
    trim_start(trim_start(s).reverse()).reverse()
}

/// A letter of the alphabet without its case.
pub open spec fn lower(c: char) -> char {
    if 'A' <= c <= 'Z' {
        ((c as u32) + 32) as char
    } else {
        c
    }
}

/// The texts differ at most in the case of letters of the alphabet.
pub open spec fn same_letters(a: Seq<char>, b: Seq<char>) -> bool {
    a.len() == b.len() && forall|i: int|
        0 <= i < a.len() ==> lower(#[trigger] a[i]) == lower(#[trigger] b[i])
}

pub open spec fn is_digit(c: char) -> bool {
    '0' <= c <= '9'
}

/// The number that a text of digits stands for.
pub open spec fn number(s: Seq<char>) -> nat
    decreases s.len(),
{
    if s.len() == 0 {
        0
    } else {
        number(s.drop_last()) * 10 + (s.last() as nat - '0' as nat) as nat
    }
}

/// The digits of a text that stands for a number, which may start with `+`.
pub open spec fn digits_of(s: Seq<char>) -> Seq<char> {
    if s.len() > 0 && s[0] == '+' {
        s.skip(1)
    } else {
        s
    }
}

/// The text stands for a number that can be counted to.
pub open spec fn is_number(s: Seq<char>) -> bool {
    &&& digits_of(s).len() > 0
    &&& forall|i: int| 0 <= i < digits_of(s).len() ==> is_digit(#[trigger] digits_of(s)[i])
    &&& number(digits_of(s)) <= usize::MAX
}

/// What a text says to indent with.
pub open spec fn indent_of(s: Seq<char>) -> Result<Indent, IndentError> {
    let word = trimmed(s);
    if same_letters(word, seq!['t', 'a', 'b']) || same_letters(word, seq!['t', 'a', 'b', 's']) {
        Ok(Indent::Tabs)
    } else if same_letters(word, seq!['n', 'o', 'n', 'e']) || same_letters(word, seq!['n', 'o']) {
        Ok(Indent::Spaces(0))
    } else if !is_number(word) {
        Err(IndentError::NotANumber)
    } else if number(digits_of(word)) > 32 {
        Err(IndentError::TooWide)
    } else {
        Ok(Indent::Spaces(number(digits_of(word)) as usize))
    }
}

/// The characters without the white space at both ends.
fn trim(s: &[char]) -> (r: Vec<char>)
    ensures
        r@ == trimmed(s@),
{
    let len = s.len();
    assert(s@.skip(0) =~= s@);
    let from = space_run(s, 0, true);
    let ghost start = s@.skip(from as int);
    let ghost back = start.reverse();
    let mut to = len;
    while to > from && white_space(s[to - 1])
        invariant
            from <= to <= len == s@.len(),
            start == s@.skip(from as int),
            back == start.reverse(),
            forall|i: int| 0 <= i < len - to ==> is_white_space(#[trigger] back[i]),
        decreases to,
    {
        assert(back[len - to] == s@[to - 1]);
        to -= 1;
    }
    let r = copied(s, from, to);
    proof {
        if to > from {
            assert(back[len - to] == s@[to - 1]);
        }
        crate::text::lemma_run_is(back, |c: char| is_white_space(c), (len - to) as nat);
        assert(r@ =~= back.skip(len - to).reverse());
    }
    r
}

/// A letter of the alphabet without its case.
fn lower_case(c: char) -> (r: char)
    ensures
        r == lower(c),
{
    if 'A' <= c && c <= 'Z' {
        ((c as u8) + 32) as char
    } else {
        c
    }
}

/// Whether texts differ at most in the case of letters of the alphabet.
fn eq_letters(a: &[char], b: &[char]) -> (r: bool)
    ensures
        r == same_letters(a@, b@),
{
    if a.len() != b.len() {
        return false;
    }
    let mut i: usize = 0;
    while i < a.len()
        invariant
            i <= a@.len() == b@.len(),
            forall|j: int| 0 <= j < i ==> lower(#[trigger] a@[j]) == lower(#[trigger] b@[j]),
        decreases a@.len() - i,
    {
        if lower_case(a[i]) != lower_case(b[i]) {
            return false;
        }
        i += 1;
    }
    true
}

/// The number that a text stands for.
fn parse_number(s: &[char]) -> (r: Option<usize>)
    ensures
        match r {
            Some(n) => is_number(s@) && n == number(digits_of(s@)),
            None => !is_number(s@),
        },
{
    let start: usize = if s.len() > 0 && s[0] == '+' {
        1
    } else {
        0
    };
    let ghost digits = digits_of(s@);
    assert(digits =~= s@.skip(start as int));
    if start == s.len() {
        return None;
    }
    let mut i: usize = start;
    let mut n: usize = 0;
    assert(digits.take(0) =~= seq![]);
    while i < s.len()
        invariant
            digits == digits_of(s@),
            digits == s@.skip(start as int),
            start <= i <= s@.len(),
            n == number(digits.take(i - start)),
            forall|j: int| 0 <= j < i - start ==> is_digit(#[trigger] digits[j]),
        decreases s@.len() - i,
    {
        let c = s[i];
        let ghost k = i - start;
        assert(digits[k] == c);
        if !('0' <= c && c <= '9') {
            return None;
        }
        let digit = (c as u8 - 48) as usize;
        proof {
            assert(digits.take(k + 1).drop_last() =~= digits.take(k));
            assert(digits.take(k + 1).last() == c);
            lemma_number_grows(digits, k + 1);
        }
        if n > (usize::MAX - digit) / 10 {
            assert(n * 10 + digit > usize::MAX);
            return None;
        }
        n = n * 10 + digit;
        i += 1;
    }
    assert(digits.take(i - start) =~= digits);
    Some(n)
}

/// More digits make no smaller number.
proof fn lemma_number_grows(s: Seq<char>, n: int)
    requires
        0 <= n <= s.len(),
    ensures
        number(s.take(n)) <= number(s),
    decreases s.len() - n,
{
    if n < s.len() {
        lemma_number_grows(s, n + 1);
        assert(s.take(n + 1).drop_last() =~= s.take(n));
    } else {
        assert(s.take(n) =~= s);
    }
}

impl Indent {
    /// What a text says to indent with: a number of spaces, `none`, or `tabs`.
    pub fn from_str(s: &str) -> (r: Result<Indent, IndentError>)
        ensures
            r == indent_of(s@),
            r matches Ok(Indent::Spaces(n)) ==> n <= 32,
    {
        let word = trim(&chars(s));
        let tab: [char; 3] = ['t', 'a', 'b'];
        let tabs: [char; 4] = ['t', 'a', 'b', 's'];
        let none: [char; 4] = ['n', 'o', 'n', 'e'];
        let no: [char; 2] = ['n', 'o'];
        proof {
            assert(tab@ =~= seq!['t', 'a', 'b']);
            assert(tabs@ =~= seq!['t', 'a', 'b', 's']);
            assert(none@ =~= seq!['n', 'o', 'n', 'e']);
            assert(no@ =~= seq!['n', 'o']);
        }
        if eq_letters(&word, &tab) || eq_letters(&word, &tabs) {
            return Ok(Indent::Tabs);
        }
        if eq_letters(&word, &none) || eq_letters(&word, &no) {
            return Ok(Indent::Spaces(0));
        }
        match parse_number(&word) {
            None => Err(IndentError::NotANumber),
            Some(n) => if n > 32 {
                Err(IndentError::TooWide)
            } else {
                Ok(Indent::Spaces(n))
            },
        }
    }
}

/// Whether and how structured data is indented.
#[derive(Clone, Copy, Debug, PartialEq, Eq, Structural)]
pub struct Print {
    pub pretty: bool,
    pub indent: Option<Indent>,
}

/// The characters that structured data is indented with, if it is.
pub open spec fn print_text(print: Print) -> Option<Seq<char>> {
    match print.indent {
        Some(indent) => Some(indent_text(indent)),
        None => if print.pretty {
            Some(indent_text(Indent::Spaces(4)))
        } else {
            None
        },
    }
}

/// The string, if any, is made of the characters.
pub open spec fn is_text(s: Option<&str>, text: Option<Seq<char>>) -> bool {
    match (s, text) {
        (Some(s), Some(text)) => s@ == text,
        (None, None) => true,
        _ => false,
    }
}

impl Print {
    /// What structured data is indented with, if it is.
    pub fn get(self) -> (r: Option<&'static str>)
        requires
            !(self.pretty && self.indent is Some),
            self.indent matches Some(Indent::Spaces(n)) ==> n <= 32,
        ensures
            is_text(r, print_text(self)),
    {
        match self.indent {
            None => if self.pretty {
                Some(Indent::default().get())
            } else {
                None
            },
            Some(indent) => Some(indent.get()),
        }
    }
}

/// Whether output data is compressed less or more than usual.
#[derive(Clone, Copy, Debug, PartialEq, Eq, Structural)]
pub struct Compress {
    pub no_compress: bool,
    pub max_compress: bool,
}

/// How much output data is compressed.
pub open spec fn compression_of(compress: Compress) -> Compression {
    if compress.no_compress {
        Compression::Off
    } else if compress.max_compress {
        Compression::Max
    } else {
        Compression::Normal
    }
}

impl Compress {
    /// How much output data is compressed.
    pub fn get(self) -> (r: Compression)
        requires
            !(self.no_compress && self.max_compress),
        ensures
            r == compression_of(self),
    {
        if self.no_compress {
            Compression::Off
        } else if self.max_compress {
            Compression::Max
        } else {
            Compression::Normal
        }
    }
}

/// A kind of source that can be built.
#[derive(Clone, Copy, Debug, PartialEq, Eq, Structural)]
pub enum Feature {
    Svg,
    Toml,
}

/// Which kinds of sources alone are built, or which are not.
#[derive(Debug)]
pub struct FeatureSet {
    pub enable: Option<Vec<Feature>>,
    pub disable: Option<Vec<Feature>>,
}

/// Whether a kind of source is among others.
fn has_feature(features: &Vec<Feature>, feature: Feature) -> (r: bool)
    ensures
        r == features@.contains(feature),
{
    let mut i: usize = 0;
    while i < features.len()
        invariant
            i <= features@.len(),
            forall|j: int| 0 <= j < i ==> #[trigger] features@[j] != feature,
        decreases features@.len() - i,
    {
        if features[i] == feature {
            return true;
        }
        i += 1;
    }
    false
}

/// Which kinds of sources are built.
pub open spec fn features_of(set: FeatureSet) -> Features {
    match (set.enable, set.disable) {
        (Some(enable), _) => Features {
            svg: enable@.contains(Feature::Svg),
            toml: enable@.contains(Feature::Toml),
        },
        (None, Some(disable)) => Features {
            svg: !disable@.contains(Feature::Svg),
            toml: !disable@.contains(Feature::Toml),
        },
        (None, None) => Features { svg: true, toml: true },
    }
}

impl FeatureSet {
    /// Which kinds of sources are built.
    pub fn get(self) -> (r: Features)
        requires
            !(self.enable is Some && self.disable is Some),
        ensures
            r == features_of(self),
    {
        match (self.enable, self.disable) {
            (Some(enable), _) => Features {
                svg: has_feature(&enable, Feature::Svg),
                toml: has_feature(&enable, Feature::Toml),
            },
            (None, Some(disable)) => Features {
                svg: !has_feature(&disable, Feature::Svg),
                toml: !has_feature(&disable, Feature::Toml),
            },
            (None, None) => Features { svg: true, toml: true },
        }
    }
}

/// A path or a name on the command line, with what is known of the path.
#[derive(Debug)]
pub struct PackArg {
    pub text: Vec<u8>,
    /// The last name in the path, empty if there is none.
    pub file_name: Vec<u8>,
    /// Whether the path leads to a directory.
    pub is_dir: bool,
}

/// A directory to wrap archives in.
#[derive(Debug)]
pub struct WrapArg {
    pub path: String,
    pub is_relative: bool,
}

/// A pack to build.
#[derive(Debug)]
pub struct Pack {
    /// Which of the arguments its path is.
    pub path: usize,
    pub name: Vec<u8>,
}

#[verifier::ext_equal]
pub struct PackView {
    pub path: nat,
    pub name: Seq<u8>,
}

impl View for Pack {
    type V = PackView;

    open spec fn view(&self) -> PackView {
        PackView { path: self.path as nat, name: self.name@ }
    }
}

impl Sorted for Pack {
    open spec fn key(&self) -> Seq<Seq<u8>> {
        name_key(self.name@)
    }

    fn may_precede(&self, other: &Self) -> (r: bool) {
        proof {
            lemma_name_key(self.name@, other.name@);
            lemma_name_le_total(self.name@, other.name@);
        }
        match name_order(&self.name, &other.name) {
            Order::After => false,
            _ => true,
        }
    }
}

/// What is wrong with the arguments.
#[derive(Debug)]
pub enum ArgsError {
    /// A path has no name behind it, though names are asked for.
    MissingName(usize),
    /// A path does not lead to a directory.
    NotADir(usize),
    /// A pack has no name.
    EmptyName(usize),
    /// The name of a pack has a separator in it.
    SeparatorInName(Vec<u8>),
    /// Two packs have the same name.
    DuplicateName(Vec<u8>),
    /// The archive is to be wrapped in a directory without a name.
    EmptyWrap,
    /// The archive is to be wrapped in a directory that is not relative.
    AbsoluteWrap,
}

#[verifier::ext_equal]
pub enum ArgsErrorView {
    MissingName(usize),
    NotADir(usize),
    EmptyName(usize),
    SeparatorInName(Seq<u8>),
    DuplicateName(Seq<u8>),
    EmptyWrap,
    AbsoluteWrap,
}

impl View for ArgsError {
    type V = ArgsErrorView;

    open spec fn view(&self) -> ArgsErrorView {
        match self {
            ArgsError::MissingName(i) => ArgsErrorView::MissingName(*i),
            ArgsError::NotADir(i) => ArgsErrorView::NotADir(*i),
            ArgsError::EmptyName(i) => ArgsErrorView::EmptyName(*i),
            ArgsError::SeparatorInName(name) => ArgsErrorView::SeparatorInName(name@),
            ArgsError::DuplicateName(name) => ArgsErrorView::DuplicateName(name@),
            ArgsError::EmptyWrap => ArgsErrorView::EmptyWrap,
            ArgsError::AbsoluteWrap => ArgsErrorView::AbsoluteWrap,
        }
    }
}

/// How many packs the arguments name. With names, a path and a name make a pack.
pub open spec fn pack_count(named: bool, packs: Seq<PackArg>) -> nat {
    if named {
        packs.len() / 2
    } else {
        packs.len()
    }
}

/// The pack at a place among the arguments.
pub open spec fn named_pack(named: bool, packs: Seq<PackArg>, i: int) -> PackView {
    if named {
        PackView { path: (2 * i) as nat, name: packs[2 * i + 1].text@ }
    } else {
        PackView { path: i as nat, name: packs[i].file_name@ }
    }
}

/// The packs that the arguments name, in the order of the arguments.
pub open spec fn named_packs(named: bool, packs: Seq<PackArg>) -> Seq<PackView> {
    Seq::new(pack_count(named, packs), |i: int| named_pack(named, packs, i))
}

/// The bytes of the separators `/` and `\`.
pub open spec fn has_separator(name: Seq<u8>) -> bool {
    name.contains(47u8) || name.contains(92u8)
}

/// What is wrong with a pack.
pub open spec fn pack_error(packs: Seq<PackArg>, pack: PackView) -> Option<ArgsErrorView> {
    if !packs[pack.path as int].is_dir {
        Some(ArgsErrorView::NotADir(pack.path as usize))
    } else if pack.name.len() == 0 {
        Some(ArgsErrorView::EmptyName(pack.path as usize))
    } else if has_separator(pack.name) {
        Some(ArgsErrorView::SeparatorInName(pack.name))
    } else {
        None
    }
}

/// What is wrong with the first of the packs that something is wrong with.
pub open spec fn packs_error(packs: Seq<PackArg>, views: Seq<PackView>) -> Option<ArgsErrorView> {
    let good = run(views, |p: PackView| pack_error(packs, p) is None);
    if good < views.len() {
        pack_error(packs, views[good as int])
    } else {
        None
    }
}

/// What is wrong with the directory to wrap archives in.
pub open spec fn wrap_error(wrap: Option<WrapArg>) -> Option<ArgsErrorView> {
    match wrap {
        Some(w) => if w.path@.len() == 0 {
            Some(ArgsErrorView::EmptyWrap)
        } else if !w.is_relative {
            Some(ArgsErrorView::AbsoluteWrap)
        } else {
            None
        },
        None => None,
    }
}

/// The key that each pack is sorted by.
pub open spec fn pack_keys(views: Seq<PackView>) -> Seq<Seq<Seq<u8>>> {
    views.map_values(|p: PackView| name_key(p.name))
}

/// What each of a list of packs holds.
pub open spec fn pack_views(packs: Seq<Pack>) -> Seq<PackView> {
    packs.map_values(|p: Pack| p@)
}

/// The arguments that are not flags.
#[derive(Debug)]
pub struct Clap {
    pub packs: Vec<PackArg>,
    /// Whether each path is followed by a name.
    pub named: bool,
    /// Whether files are written that are up to date.
    pub force: bool,
    pub wrap: Option<WrapArg>,
    pub print: Print,
    pub compress: Compress,
    pub feature_set: FeatureSet,
}

/// Where packs are written to.
#[derive(Debug)]
pub struct Output {
    /// Whether files are kept that are up to date.
    pub cache: bool,
    /// The directory that archives are wrapped in.
    pub wrap_zip: String,
}

/// What the command line asks for.
#[derive(Debug)]
pub struct Args {
    pub packs: Vec<Pack>,
    pub output: Output,
    pub options: Options,
}

/// Whether a name has a separator in it.
fn separated(name: &Vec<u8>) -> (r: bool)
    ensures
        r == has_separator(name@),
{
    let mut i: usize = 0;
    while i < name.len()
        invariant
            i <= name@.len(),
            forall|j: int| 0 <= j < i ==> #[trigger] name@[j] != 47u8 && name@[j] != 92u8,
        decreases name@.len() - i,
    {
        if name[i] == 47u8 || name[i] == 92u8 {
            assert(name@.contains(name@[i as int]));
            return true;
        }
        i += 1;
    }
    false
}

/// The packs that the arguments name.
fn packs_of(named: bool, packs: &Vec<PackArg>) -> (r: Vec<Pack>)
    requires
        named ==> packs@.len() % 2 == 0,
    ensures
        pack_views(r@) == named_packs(named, packs@),
{
    let mut r: Vec<Pack> = Vec::new();
    let mut i: usize = 0;
    let ghost all = named_packs(named, packs@);
    assert(pack_views(r@) =~= all.take(0));
    while i < packs.len()
        invariant
            all == named_packs(named, packs@),
            named ==> packs@.len() % 2 == 0 && i % 2 == 0,
            i <= packs@.len(),
            pack_views(r@) == all.take(
                if named {
                    i as int / 2
                } else {
                    i as int
                },
            ),
        decreases packs@.len() - i,
    {
        let ghost before = pack_views(r@);
        let ghost k = if named {
            i as int / 2
        } else {
            i as int
        };
        let name = if named {
            copied(&packs[i + 1].text, 0, packs[i + 1].text.len())
        } else {
            copied(&packs[i].file_name, 0, packs[i].file_name.len())
        };
        proof {
            if named {
                assert(name@ =~= packs@[i + 1].text@);
            } else {
                assert(name@ =~= packs@[i as int].file_name@);
            }
        }
        let pack = Pack { path: i, name };
        r.push(pack);
        proof {
            assert(pack@ =~= all[k]);
            assert(pack_views(r@) =~= before.push(all[k]));
            assert(all.take(k + 1) =~= all.take(k).push(all[k]));
        }
        i = if named {
            i + 2
        } else {
            i + 1
        };
    }
    assert(all.take(all.len() as int) =~= all);
    r
}

/// Looks for something that is wrong with a pack.
fn check_packs(args: &Vec<PackArg>, packs: &Vec<Pack>) -> (r: Option<ArgsError>)
    requires
        forall|i: int| 0 <= i < packs@.len() ==> (#[trigger] packs@[i]).path < args@.len(),
    ensures
        match r {
            Some(e) => packs_error(args@, pack_views(packs@)) == Some(e@),
            None => packs_error(args@, pack_views(packs@)) is None,
        },
{
    let ghost views = pack_views(packs@);
    let ghost p = |p: PackView| pack_error(args@, p) is None;
    let mut i: usize = 0;
    while i < packs.len()
        invariant
            views == pack_views(packs@),
            p == |p: PackView| pack_error(args@, p) is None,
            i <= packs@.len(),
            forall|i: int| 0 <= i < packs@.len() ==> (#[trigger] packs@[i]).path < args@.len(),
            forall|j: int| 0 <= j < i ==> pack_error(args@, #[trigger] views[j]) is None,
        decreases packs@.len() - i,
    {
        let pack = &packs[i];
        assert(views[i as int] == pack@);
        let e = if !args[pack.path].is_dir {
            Some(ArgsError::NotADir(pack.path))
        } else if pack.name.len() == 0 {
            Some(ArgsError::EmptyName(pack.path))
        } else if separated(&pack.name) {
            let name = copied(&pack.name, 0, pack.name.len());
            assert(name@ =~= pack.name@);
            Some(ArgsError::SeparatorInName(name))
        } else {
            None
        };
        if e.is_some() {
            proof {
                crate::text::lemma_run_is(views, p, i as nat);
            }
            return e;
        }
        i += 1;
    }
    proof {
        crate::text::lemma_run_is(views, p, views.len());
    }
    None
}

/// Whether the flags exclude one another.
pub open spec fn flags_agree(clap: Clap) -> bool {
    &&& !(clap.print.pretty && clap.print.indent is Some)
    &&& clap.print.indent matches Some(Indent::Spaces(n)) ==> n <= 32
    &&& !(clap.compress.no_compress && clap.compress.max_compress)
    &&& !(clap.feature_set.enable is Some && clap.feature_set.disable is Some)
}

/// What the arguments come to, apart from the packs.
pub open spec fn args_agree(clap: Clap, args: Args) -> bool {
    &&& args.output.cache == !clap.force
    &&& args.output.wrap_zip@ == (match clap.wrap {
        Some(wrap) => wrap.path@,
        None => Seq::<char>::empty(),
    })
    &&& is_text(args.options.pretty_print, print_text(clap.print))
    &&& args.options.compression == compression_of(clap.compress)
    &&& args.options.features == features_of(clap.feature_set)
}

/// The packs in the order of their names.
pub open spec fn packs_sorted(packs: Seq<PackView>, views: Seq<PackView>) -> bool {
    &&& packs.to_multiset() == views.to_multiset()
    &&& forall|i: int, j: int|
        0 <= i <= j < packs.len() ==> name_le(
            (#[trigger] packs[i]).name,
            (#[trigger] packs[j]).name,
        )
}

/// Makes sense of the arguments.
pub fn args(clap: Clap) -> (r: Result<Args, ArgsError>)
    requires
        flags_agree(clap),
    ensures
        ({
            let views = named_packs(clap.named, clap.packs@);
            let keys = pack_keys(views);
            if clap.named && clap.packs@.len() % 2 == 1 {
                r matches Err(e) && e@ == ArgsErrorView::MissingName(
                    (clap.packs@.len() - 1) as usize,
                )
            } else if packs_error(clap.packs@, views) is Some {
                r matches Err(e) && packs_error(clap.packs@, views) == Some(e@)
            } else if !no_twins(keys) {
                r matches Err(ArgsError::DuplicateName(name)) && is_first_twin(
                    keys,
                    name_key(name@),
                )
            } else if wrap_error(clap.wrap) is Some {
                r matches Err(e) && wrap_error(clap.wrap) == Some(e@)
            } else {
                r matches Ok(args) && packs_sorted(pack_views(args.packs@), views) && args_agree(
                    clap,
                    args,
                )
            }
        }),
{
    let len = clap.packs.len();
    if clap.named && len % 2 == 1 {
        return Err(ArgsError::MissingName(len - 1));
    }
    let packs = packs_of(clap.named, &clap.packs);
    let ghost views = pack_views(packs@);
    proof {
        assert forall|i: int| 0 <= i < packs@.len() implies (#[trigger] packs@[i]).path < len by {
            assert(views[i] == packs@[i]@);
            assert(views[i] == named_pack(clap.named, clap.packs@, i));
        }
    }
    if let Some(e) = check_packs(&clap.packs, &packs) {
        return Err(e);
    }
    let ghost unsorted = packs@;
    let packs = sort(packs);
    proof {
        assert(keys(unsorted) =~= pack_keys(views));
        lemma_twins_same(keys(packs@), keys(unsorted));
        lemma_map_multiset(packs@, unsorted, |p: Pack| p@);
    }
    if let Some(i) = first_twin(&packs) {
        let name = copied(&packs[i].name, 0, packs[i].name.len());
        proof {
            assert(name@ =~= packs@[i as int].name@);
            assert(is_first_twin(pack_keys(views), name_key(name@)));
            assert(has_twins(pack_keys(views), name_key(name@)));
        }
        return Err(ArgsError::DuplicateName(name));
    }
    proof {
        let sorted = pack_views(packs@);
        assert forall|i: int, j: int| 0 <= i <= j < sorted.len() implies name_le(
            (#[trigger] sorted[i]).name,
            (#[trigger] sorted[j]).name,
        ) by {
            assert(path_le(packs@[i].key(), packs@[j].key()));
            lemma_name_key(packs@[i].name@, packs@[j].name@);
        }
    }
    let wrap_zip = match clap.wrap {
        Some(wrap) => {
            if wrap.path.as_str().is_empty() {
                return Err(ArgsError::EmptyWrap);
            }
            if !wrap.is_relative {
                return Err(ArgsError::AbsoluteWrap);
            }
            wrap.path
        },
        None => String::new(),
    };
    Ok(
        Args {
            packs,
            output: Output { cache: !clap.force, wrap_zip },
            options: Options {
                pretty_print: clap.print.get(),
                compression: clap.compress.get(),
                features: clap.feature_set.get(),
            },
        },
    )
}

/// Each feature is on if it is enabled by name, or if it is not disabled by name where none is enabled.
/// What is said of the other feature makes no difference.
pub proof fn law_features_of(set: FeatureSet)
    ensures
        set.enable matches Some(names) ==> {
            &&& features_of(set).svg <==> exists|i: int|
                0 <= i < names@.len() && #[trigger] names@[i] == Feature::Svg
            &&& features_of(set).toml <==> exists|i: int|
                0 <= i < names@.len() && #[trigger] names@[i] == Feature::Toml
        },
        set.enable is None && set.disable is Some ==> {
            let names = set.disable->0;
            &&& features_of(set).svg <==> forall|i: int|
                0 <= i < names@.len() ==> #[trigger] names@[i] != Feature::Svg
            &&& features_of(set).toml <==> forall|i: int|
                0 <= i < names@.len() ==> #[trigger] names@[i] != Feature::Toml
        },
        set.enable is None && set.disable is None ==> features_of(set).svg && features_of(set).toml,
{
}

/// Data is compressed unless it is not to be, and as much as can be only if it is to be.
pub proof fn law_compression(compress: Compress)
    ensures
        compression_of(compress) == Compression::Off <==> compress.no_compress,
        compression_of(compress) == Compression::Max <==> compress.max_compress
            && !compress.no_compress,
        compression_of(compress) == Compression::Normal <==> !compress.max_compress
            && !compress.no_compress,
{
}

/// Data is indented if it is to be, with a tab or with that many spaces, and with four of them if nothing
/// else is said.
pub proof fn law_print(print: Print)
    ensures
        print_text(print) is None <==> print.indent is None && !print.pretty,
        print.indent == Some(Indent::Tabs) ==> print_text(print) == Some(seq!['\t']),
        print.indent matches Some(Indent::Spaces(n)) ==> print_text(print)->0.len() == n && forall|
            i: int,
        |
            0 <= i < n ==> #[trigger] print_text(print)->0[i] == ' ',
        print.indent is None && print.pretty ==> print_text(print) == Some(
            seq![' ', ' ', ' ', ' '],
        ),
{
    if print.indent is None && print.pretty {
        assert(print_text(print)->0 =~= seq![' ', ' ', ' ', ' ']);
    }
}

/// A number is read digit by digit.
pub proof fn law_number(digits: Seq<char>, digit: char)
    requires
        '0' <= digit <= '9',
    ensures
        number(seq![]) == 0,
        number(digits.push(digit)) == 10 * number(digits) + (digit as u32 - '0' as u32),
{
    assert(digits.push(digit).drop_last() =~= digits);
}

/// White space around what to indent with makes no difference.
pub proof fn law_indent_space(before: Seq<char>, word: Seq<char>, behind: Seq<char>)
    requires
        forall|i: int| 0 <= i < before.len() ==> is_white_space(#[trigger] before[i]),
        forall|i: int| 0 <= i < behind.len() ==> is_white_space(#[trigger] behind[i]),
        word.len() > 0 ==> !is_white_space(word[0]) && !is_white_space(word[word.len() - 1]),
    ensures
        trimmed(before + word + behind) == word,
        trimmed(word) == word,
        indent_of(before + word + behind) == indent_of(word),
{
    lemma_trimmed(before, word, behind);
    let none = Seq::<char>::empty();
    lemma_trimmed(none, word, none);
    assert(none + word + none =~= word);
}

proof fn lemma_trimmed(before: Seq<char>, word: Seq<char>, behind: Seq<char>)
    requires
        forall|i: int| 0 <= i < before.len() ==> is_white_space(#[trigger] before[i]),
        forall|i: int| 0 <= i < behind.len() ==> is_white_space(#[trigger] behind[i]),
        word.len() > 0 ==> !is_white_space(word[0]) && !is_white_space(word[word.len() - 1]),
    ensures
        trimmed(before + word + behind) == word,
{
    let all = before + word + behind;
    let none = Seq::<char>::empty();
    if word.len() == 0 {
        let space = before + behind;
        assert(all =~= space + none);
        law_trim_start(space, none);
        assert(none.reverse() =~= none);
        assert(none + none =~= none);
        law_trim_start(none, none);
        assert(trimmed(all) =~= word);
    } else {
        assert(all =~= before + (word + behind));
        assert((word + behind)[0] == word[0]);
        law_trim_start(before, word + behind);
        let rev = behind.reverse();
        assert((word + behind).reverse() =~= rev + word.reverse());
        assert(word.reverse()[0] == word[word.len() - 1]);
        assert forall|i: int| 0 <= i < rev.len() implies is_white_space(#[trigger] rev[i]) by {
            assert(is_white_space(behind[behind.len() - 1 - i]));
        }
        law_trim_start(rev, word.reverse());
        assert(word.reverse().reverse() =~= word);
    }
}

/// The character is the small letter, or the capital one.
pub open spec fn is_letter(c: char, small: char) -> bool {
    c == small || c as int + 32 == small as int
}

/// The words for what to indent with, whatever the case of their letters.
pub proof fn law_indent_words(word: Seq<char>)
    requires
        word.len() > 0 ==> !is_white_space(word[0]) && !is_white_space(word[word.len() - 1]),
    ensures
        word.len() >= 3 && is_letter(word[0], 't') && is_letter(word[1], 'a') && is_letter(word[2], 'b')
            && (word.len() == 3 || (word.len() == 4 && is_letter(word[3], 's'))) ==> indent_of(word)
            == Ok::<Indent, IndentError>(Indent::Tabs),
        word.len() >= 2 && is_letter(word[0], 'n') && is_letter(word[1], 'o') && (word.len() == 2 || (
        word.len() == 4 && is_letter(word[2], 'n') && is_letter(word[3], 'e'))) ==> indent_of(word)
            == Ok::<Indent, IndentError>(Indent::Spaces(0)),
{
    let none = Seq::<char>::empty();
    law_indent_space(none, word, none);
    assert(lower('t') == 't' && lower('n') == 'n');
    assert forall|c: char, small: char| #[trigger] is_letter(c, small) && 'a' <= small <= 'z' implies
    lower(c) == small by {
        if c != small {
            assert('A' <= c <= 'Z');
        }
    }
    if word.len() == 3 && is_letter(word[0], 't') && is_letter(word[1], 'a') && is_letter(
        word[2],
        'b',
    ) {
        assert(same_letters(word, seq!['t', 'a', 'b']));
    }
    if word.len() == 4 && is_letter(word[0], 't') && is_letter(word[1], 'a') && is_letter(
        word[2],
        'b',
    ) && is_letter(word[3], 's') {
        assert(same_letters(word, seq!['t', 'a', 'b', 's']));
    }
    if word.len() >= 2 && is_letter(word[0], 'n') && is_letter(word[1], 'o') {
        assert(lower(word[0]) != lower(seq!['t', 'a', 'b'][0]));
        assert(lower(word[0]) != lower(seq!['t', 'a', 'b', 's'][0]));
        assert(!same_letters(word, seq!['t', 'a', 'b']));
        assert(!same_letters(word, seq!['t', 'a', 'b', 's']));
        if word.len() == 2 {
            assert(same_letters(word, seq!['n', 'o']));
        } else if word.len() == 4 && is_letter(word[2], 'n') && is_letter(word[3], 'e') {
            assert(same_letters(word, seq!['n', 'o', 'n', 'e']));
        }
    }
}

/// A number of spaces is given by its digits, with `+` before them or not. It may be no more than 32.
pub proof fn law_indent_number(digits: Seq<char>)
    requires
        digits.len() > 0,
        forall|i: int| 0 <= i < digits.len() ==> '0' <= #[trigger] digits[i] <= '9',
        number(digits) <= usize::MAX,
    ensures
        number(digits) <= 32 ==> indent_of(digits) == Ok::<Indent, IndentError>(
            Indent::Spaces(number(digits) as usize),
        ),
        number(digits) > 32 ==> indent_of(digits) == Err::<Indent, IndentError>(IndentError::TooWide),
        indent_of(seq!['+'] + digits) == indent_of(digits),
{
    let none = Seq::<char>::empty();
    let plus = seq!['+'] + digits;
    let n = digits.len() as int;
    assert('0' <= digits[0] <= '9' && '0' <= digits[n - 1] <= '9');
    assert(plus[0] == '+' && plus[plus.len() - 1] == digits[n - 1]);
    law_indent_space(none, digits, none);
    law_indent_space(none, plus, none);
    assert(digits_of(digits) == digits);
    assert(plus.skip(1) =~= digits);
    assert(is_number(digits) && is_number(plus));
    assert(lower(digits[0]) == digits[0] && lower(plus[0]) == '+');
    lemma_no_word(digits);
    lemma_no_word(plus);
}

/// A text that starts with neither letter is none of the words.
proof fn lemma_no_word(word: Seq<char>)
    requires
        word.len() > 0,
        lower(word[0]) != 't',
        lower(word[0]) != 'n',
    ensures
        !same_letters(word, seq!['t', 'a', 'b']),
        !same_letters(word, seq!['t', 'a', 'b', 's']),
        !same_letters(word, seq!['n', 'o', 'n', 'e']),
        !same_letters(word, seq!['n', 'o']),
{
    let a = seq!['t', 'a', 'b'];
    let b = seq!['t', 'a', 'b', 's'];
    let c = seq!['n', 'o', 'n', 'e'];
    let d = seq!['n', 'o'];
    assert(lower(a[0]) == 't' && lower(b[0]) == 't' && lower(c[0]) == 'n' && lower(d[0]) == 'n');
}

/// What starts with neither a digit nor `+` nor the first letter of one of the words, or is empty, is not
/// a number.
pub proof fn law_indent_other(word: Seq<char>)
    requires
        word.len() > 0 ==> !is_white_space(word[0]) && !is_white_space(word[word.len() - 1]),
        word.len() > 0 ==> !('0' <= word[0] <= '9') && word[0] != '+' && lower(word[0]) != 't' && lower(
            word[0],
        ) != 'n',
    ensures
        indent_of(word) == Err::<Indent, IndentError>(IndentError::NotANumber),
{
    let none = Seq::<char>::empty();
    law_indent_space(none, word, none);
    if word.len() > 0 {
        lemma_no_word(word);
        assert(digits_of(word) == word);
        assert(!is_digit(word[0]));
    }
}

/// With names, each path is followed by the name of its pack; without, a pack has the name of its
/// directory.
pub proof fn law_named_packs(packs: Seq<PackArg>, i: int)
    ensures
        named_packs(false, packs).len() == packs.len(),
        0 <= i < packs.len() ==> named_packs(false, packs)[i].path == i && named_packs(false, packs)[i].name
            == packs[i].file_name@,
        2 * named_packs(true, packs).len() <= packs.len() < 2 * named_packs(true, packs).len() + 2,
        0 <= i && 2 * i + 1 < packs.len() ==> named_packs(true, packs)[i].path == 2 * i && named_packs(
            true,
            packs,
        )[i].name == packs[2 * i + 1].text@,
{
}

/// A pack has to be a directory, and its name must not be empty or have a separator in it.
pub proof fn law_pack_error(packs: Seq<PackArg>, pack: PackView)
    requires
        pack.path <= usize::MAX,
    ensures
        pack_error(packs, pack) is None <==> packs[pack.path as int].is_dir && pack.name.len() > 0 && (
        forall|i: int|
            0 <= i < pack.name.len() ==> #[trigger] pack.name[i] != 47 && pack.name[i] != 92),
        !packs[pack.path as int].is_dir ==> pack_error(packs, pack) == Some(
            ArgsErrorView::NotADir(pack.path as usize),
        ),
        packs[pack.path as int].is_dir && pack.name.len() == 0 ==> pack_error(packs, pack) == Some(
            ArgsErrorView::EmptyName(pack.path as usize),
        ),
        packs[pack.path as int].is_dir && (exists|i: int|
            0 <= i < pack.name.len() && (#[trigger] pack.name[i] == 47 || pack.name[i] == 92))
            ==> pack_error(packs, pack) == Some(ArgsErrorView::SeparatorInName(pack.name)),
{
}

/// Of several packs that something is wrong with, the first is told.
pub proof fn law_packs_error(packs: Seq<PackArg>, views: Seq<PackView>, i: int)
    requires
        0 <= i < views.len(),
        pack_error(packs, views[i]) is Some,
        forall|j: int| 0 <= j < i ==> pack_error(packs, #[trigger] views[j]) is None,
    ensures
        packs_error(packs, views) == pack_error(packs, views[i]),
{
    let p = |v: PackView| pack_error(packs, v) is None;
    assert forall|j: int| 0 <= j < i implies p(#[trigger] views[j]) by {}
    lemma_run_is(views, p, i as nat);
}

/// If something is wrong with packs, it is with one of them.
pub proof fn law_packs_fine(packs: Seq<PackArg>, views: Seq<PackView>)
    ensures
        packs_error(packs, views) is None <==> forall|i: int|
            0 <= i < views.len() ==> pack_error(packs, #[trigger] views[i]) is None,
{
    let p = |v: PackView| pack_error(packs, v) is None;
    lemma_run(views, p);
    assert forall|i: int| 0 <= i < run(views, p) implies pack_error(
        packs,
        #[trigger] views[i],
    ) is None by {
        assert(p(views[i]));
    }
}

/// What archives are wrapped in has to be a relative path.
pub proof fn law_wrap_error(wrap: Option<WrapArg>)
    ensures
        wrap is None ==> wrap_error(wrap) is None,
        wrap matches Some(w) ==> {
            &&& w.path@.len() == 0 ==> wrap_error(wrap) == Some(ArgsErrorView::EmptyWrap)
            &&& w.path@.len() > 0 && !w.is_relative ==> wrap_error(wrap) == Some(
                ArgsErrorView::AbsoluteWrap,
            )
            &&& w.path@.len() > 0 && w.is_relative ==> wrap_error(wrap) is None
        },
{
}

/// Packs are built in the order of their names.
pub proof fn law_packs_order(packs: Seq<PackView>, views: Seq<PackView>, i: int, j: int)
    requires
        packs_sorted(packs, views),
        0 <= i < j < packs.len(),
    ensures
        name_le(packs[i].name, packs[j].name),
        packs[i].name != packs[j].name ==> !name_le(packs[j].name, packs[i].name),
        views.contains(packs[i]),
        packs.len() == views.len(),
{
    broadcast use vstd::seq_lib::group_to_multiset_ensures;

    lemma_name_le_total(packs[i].name, packs[j].name);
    assert(packs.contains(packs[i]));
    assert(packs.to_multiset().count(packs[i]) > 0);
    assert(packs.to_multiset().len() == packs.len());
    assert(views.to_multiset().len() == views.len());
}

/// What is asked for is what is done: files that are up to date are kept unless they are to be written
/// anyway, archives are wrapped in the directory that is named, and in none if none is, and data is
/// indented and compressed, and sources built, as the flags say.
pub proof fn law_args(clap: Clap, args: Args)
    requires
        args_agree(clap, args),
    ensures
        args.output.cache <==> !clap.force,
        clap.wrap is None ==> args.output.wrap_zip@.len() == 0,
        clap.wrap matches Some(wrap) ==> args.output.wrap_zip@ == wrap.path@,
        args.options.pretty_print is Some <==> clap.print.pretty || clap.print.indent is Some,
        args.options.pretty_print matches Some(text) ==> Some(text@) == print_text(clap.print),
        args.options.compression == compression_of(clap.compress),
        args.options.features == features_of(clap.feature_set),
{
}

/// Two packs may not have the same name, and different names they may have.
pub proof fn law_pack_names(views: Seq<PackView>)
    ensures
        no_twins(pack_keys(views)) <==> forall|i: int, j: int|
            0 <= i < j < views.len() ==> (#[trigger] views[i]).name != (#[trigger] views[j]).name,
{
    let keys = pack_keys(views);
    assert forall|i: int, j: int| 0 <= i < views.len() && 0 <= j < views.len() implies (keys[i]
        == keys[j] <==> (#[trigger] views[i]).name == (#[trigger] views[j]).name) by {
        lemma_name_key(views[i].name, views[j].name);
    }
    if no_twins(keys) {
        assert forall|i: int, j: int| 0 <= i < j < views.len() implies (#[trigger] views[i]).name != (
        #[trigger] views[j]).name by {
            assert(!has_twins(keys, keys[i]));
        }
    }
    if forall|i: int, j: int|
        0 <= i < j < views.len() ==> (#[trigger] views[i]).name != (#[trigger] views[j]).name {
        assert forall|key: Seq<Seq<u8>>| !#[trigger] has_twins(keys, key) by {
            if has_twins(keys, key) {
                let (i, j) = choose|i: int, j: int|
                    0 <= i < j < keys.len() && #[trigger] keys[i] == key && #[trigger] keys[j] == key;
                assert(views[i].name == views[j].name);
            }
        }
    }
}

} // verus!

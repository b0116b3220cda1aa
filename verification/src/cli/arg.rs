//! A registry of command-line flags, each given by a descriptor such as
//! `h/help`: an optional one-character short name, a slash, and a long name.

use vstd::prelude::*;

verus! {

/// Whether a flag has been looked for among the arguments, and found.
#[derive(Debug, Clone, Copy, PartialEq, Eq, Structural)]
pub enum ArgState {
    /// No arguments have been processed since the flag was made.
    Unprocessed,
    /// An argument named the flag.
    Matched,
    /// Arguments were processed and none named the flag.
    NotMatched,
}

/// What can go wrong with descriptors and registries.
#[derive(Debug, PartialEq, Eq)]
pub enum ArgError {
    /// A descriptor holds a character that is neither a letter nor a digit,
    /// other than the one slash that separates its names.
    InvalidCharacter(char),
    /// A descriptor has more than one character before its first slash.
    ShortTooLong,
    /// A descriptor has no long name.
    MissingLong,
    /// The long name is already registered.
    DuplicateLong(String),
    /// No flag with this long name is registered.
    UnknownLong(String),
    /// The flag was asked for its outcome before any arguments were
    /// processed.
    NotProcessed,
}

/// The mathematical value of an [`ArgError`].
pub ghost enum ArgFault {
    InvalidCharacter(char),
    ShortTooLong,
    MissingLong,
    DuplicateLong(Seq<char>),
    UnknownLong(Seq<char>),
    NotProcessed,
}

impl View for ArgError {
    type V = ArgFault;

    open spec fn view(&self) -> ArgFault {
        match self {
            ArgError::InvalidCharacter(c) => ArgFault::InvalidCharacter(*c),
            ArgError::ShortTooLong => ArgFault::ShortTooLong,
            ArgError::MissingLong => ArgFault::MissingLong,
            ArgError::DuplicateLong(long) => ArgFault::DuplicateLong(long@),
            ArgError::UnknownLong(long) => ArgFault::UnknownLong(long@),
            ArgError::NotProcessed => ArgFault::NotProcessed,
        }
    }
}

/// True for ASCII letters and digits.
pub open spec fn is_alphanumeric(c: char) -> bool {
    ('a' <= c && c <= 'z') || ('A' <= c && c <= 'Z') || ('0' <= c && c <= '9')
}

/// True when no slash stands before position `i`.
pub open spec fn before_slash(text: Seq<char>, i: int) -> bool {
    forall|j: int| 0 <= j < i ==> #[trigger] text[j] != '/'
}

/// True when the character at position `i` spoils the descriptor: it is a
/// slash after the first one, or no letter or digit, or a second character
/// of the short name.
pub open spec fn is_fault(text: Seq<char>, i: int) -> bool {
    &&& 0 <= i < text.len()
    &&& if text[i] == '/' {
        !before_slash(text, i)
    } else {
        !is_alphanumeric(text[i]) || (i >= 1 && before_slash(text, i))
    }
}

/// True when `i` is the first position that spoils the descriptor.
pub open spec fn is_first_fault(text: Seq<char>, i: int) -> bool {
    &&& is_fault(text, i)
    &&& forall|j: int| 0 <= j < i ==> !#[trigger] is_fault(text, j)
}

/// True when some character spoils the descriptor.
pub open spec fn has_fault(text: Seq<char>) -> bool {
    exists|i: int| is_fault(text, i)
}

/// The first position that spoils a descriptor that has one.
pub open spec fn first_fault(text: Seq<char>) -> int {
    choose|i: int| is_first_fault(text, i)
}

/// The short name of a descriptor without fault: its first character,
/// unless that is a slash.
pub open spec fn short_of(text: Seq<char>) -> Option<char> {
    if text.len() > 0 && text[0] != '/' {
        Some(text[0])
    } else {
        None
    }
}

/// Where the long name of a descriptor without fault starts: behind the
/// slash, which stands first or follows the short name.
pub open spec fn long_start(text: Seq<char>) -> int {
    if short_of(text) is Some {
        2
    } else {
        1
    }
}

/// The long name of a descriptor without fault: what follows the slash.
pub open spec fn long_of(text: Seq<char>) -> Seq<char> {
    if text.len() >= long_start(text) {
        text.skip(long_start(text))
    } else {
        Seq::empty()
    }
}

/// What a descriptor stands for: its short and long name, or the reason why
/// it is rejected. The first spoiling character decides: a letter or digit
/// there makes the short name too long, and any other character, a second
/// slash too, is invalid. A descriptor without such a character is rejected
/// when its long name is empty.
pub open spec fn described(text: Seq<char>) -> Result<(Option<char>, Seq<char>), ArgFault> {
    if has_fault(text) {
        let c = text[first_fault(text)];
        if is_alphanumeric(c) {
            Err(ArgFault::ShortTooLong)
        } else {
            Err(ArgFault::InvalidCharacter(c))
        }
    } else if long_of(text).len() == 0 {
        Err(ArgFault::MissingLong)
    } else {
        Ok((short_of(text), long_of(text)))
    }
}

/// A descriptor has at most one first fault.
pub proof fn lemma_first_fault_unique(text: Seq<char>, i: int)
    requires
        is_first_fault(text, i),
    ensures
        has_fault(text),
        first_fault(text) == i,
{
    let k = first_fault(text);
    assert(is_first_fault(text, k));
    if k < i {
        assert(!is_fault(text, k));
    } else if i < k {
        assert(!is_fault(text, i));
    }
}

/// Tells letters and digits from other characters.
fn alphanumeric(c: char) -> (r: bool)
    ensures
        r == is_alphanumeric(c),
{
    ('a' <= c && c <= 'z') || ('A' <= c && c <= 'Z') || ('0' <= c && c <= '9')
}

/// The mathematical value of what reading a descriptor returned.
pub open spec fn names_view(r: Result<(Option<char>, String), ArgError>) -> Result<
    (Option<char>, Seq<char>),
    ArgFault,
> {
    match r {
        Ok(names) => Ok((names.0, names.1@)),
        Err(e) => Err(e@),
    }
}

/// True for the names that a flag can have: a long name of one or more
/// letters and digits, and a short name, if any, that is a letter or digit.
pub open spec fn valid_names(short: Option<char>, long: Seq<char>) -> bool {
    &&& short matches Some(c) ==> is_alphanumeric(c)
    &&& long.len() > 0
    &&& forall|i: int| 0 <= i < long.len() ==> is_alphanumeric(#[trigger] long[i])
}

/// The descriptor that gives a flag these names: the short name, if any, a
/// slash, and the long name.
pub open spec fn descriptor_of(short: Option<char>, long: Seq<char>) -> Seq<char> {
    match short {
        Some(c) => seq![c, '/'] + long,
        None => seq!['/'] + long,
    }
}

/// A flag: its names and whether it has been matched.
///
/// The names of a flag are always valid: they are read from a descriptor,
/// and the descriptor of the flag is read back as the same names.
#[derive(Debug, PartialEq, Eq)]
pub struct ArgOpt {
    short: Option<char>,
    long: String,
    state: ArgState,
}

/// The mathematical value of an [`ArgOpt`].
pub ghost struct OptModel {
    pub short: Option<char>,
    pub long: Seq<char>,
    pub state: ArgState,
}

impl View for ArgOpt {
    type V = OptModel;

    closed spec fn view(&self) -> OptModel {
        OptModel { short: self.short, long: self.long@, state: self.state }
    }
}

/// The flag that a descriptor stands for, in the given state, or the
/// reason why the descriptor is rejected.
pub open spec fn flag_of(text: Seq<char>, state: ArgState) -> Result<OptModel, ArgFault> {
    match described(text) {
        Ok(names) => Ok(OptModel { short: names.0, long: names.1, state }),
        Err(fault) => Err(fault),
    }
}

/// The mathematical value of what making a flag returned.
pub open spec fn flag_view(r: Result<ArgOpt, ArgError>) -> Result<OptModel, ArgFault> {
    match r {
        Ok(opt) => Ok(opt@),
        Err(e) => Err(e@),
    }
}

impl DeepView for ArgOpt {
    type V = OptModel;

    open spec fn deep_view(&self) -> OptModel {
        self@
    }
}

impl ArgOpt {
    #[verifier::type_invariant]
    spec fn well_named(&self) -> bool {
        valid_names(self.short, self.long@)
    }

    /// Makes a flag from a descriptor such as `h/help`. The flag starts
    /// out unprocessed.
    pub fn new(opt_str: &str) -> (r: Result<ArgOpt, ArgError>)
        ensures
            flag_view(r) == flag_of(opt_str@, ArgState::Unprocessed),
    {
        ArgOpt::new_processed(opt_str, ArgState::Unprocessed)
    }

    /// Makes a flag from a descriptor, in the given state.
    fn new_processed(opt_str: &str, state: ArgState) -> (r: Result<ArgOpt, ArgError>)
        ensures
            flag_view(r) == flag_of(opt_str@, state),
    {
        match ArgOpt::parse(opt_str) {
            Ok((short, long)) => {
                proof {
                    lemma_described_names_are_valid(opt_str@);
                }
                Ok(ArgOpt { short, long, state })
            },
            Err(e) => Err(e),
        }
    }

    /// The flag `h/help`.
    pub fn help() -> (r: ArgOpt)
        ensures
            r@ == (OptModel {
                short: Some('h'),
                long: seq!['h', 'e', 'l', 'p'],
                state: ArgState::Unprocessed,
            }),
    {
        proof {
            reveal_strlit("h/help");
            let text = "h/help"@;
            lemma_descriptor_round_trip(Some('h'), seq!['h', 'e', 'l', 'p']);
            assert(text =~= descriptor_of(Some('h'), seq!['h', 'e', 'l', 'p']));
        }
        match ArgOpt::new("h/help") {
            Ok(opt) => opt,
            Err(_) => vstd::pervasive::unreached(),
        }
    }

    /// Reads a descriptor such as `h/help` into its short and long name.
    /// The character before the slash, if there is one, is the short name;
    /// what follows the slash is the long name. Apart from the one slash,
    /// every character has to be an ASCII letter or digit, and the long
    /// name may not be empty.
    pub fn parse(opt_str: &str) -> (r: Result<(Option<char>, String), ArgError>)
        ensures
            names_view(r) == described(opt_str@),
    {
        let mut short: Option<char> = None;
        let mut long = String::new();
        let mut is_short = true;
        assert(opt_str@.take(0) =~= Seq::<char>::empty());
        for ch in it: opt_str.chars()
            invariant
                it.seq() == opt_str@,
                forall|j: int| 0 <= j < it.index() ==> !#[trigger] is_fault(opt_str@, j),
                is_short == before_slash(opt_str@, it.index()),
                is_short ==> it.index() <= 1,
                short == short_of(opt_str@.take(it.index())),
                long@ == long_of(opt_str@.take(it.index())),
        {
            let ghost i = it.index();
            let ghost text = opt_str@;
            let ghost now = text.take(i + 1);
            assert(now =~= text.take(i).push(ch));
            if ch == '/' {
                if !is_short {
                    proof {
                        lemma_first_fault_unique(text, i);
                    }
                    return Err(ArgError::InvalidCharacter(ch));
                }
                is_short = false;
                proof {
                    assert(long_of(now) =~= Seq::<char>::empty());
                    assert(!before_slash(text, i + 1)) by {
                        assert(text[i] == '/');
                    }
                }
            } else if !alphanumeric(ch) {
                proof {
                    lemma_first_fault_unique(text, i);
                }
                return Err(ArgError::InvalidCharacter(ch));
            } else if is_short {
                if short.is_some() {
                    proof {
                        lemma_first_fault_unique(text, i);
                    }
                    return Err(ArgError::ShortTooLong);
                }
                short = Some(ch);
                assert(before_slash(text, i + 1));
            } else {
                long.push(ch);
                proof {
                    assert(!before_slash(text, i + 1)) by {
                        let j = choose|j: int| 0 <= j < i && text[j] == '/';
                        assert(text[j] == '/');
                    }
                    lemma_long_grows(text, i);
                }
            }
        }
        proof {
            assert(opt_str@.take(opt_str@.len() as int) =~= opt_str@);
            assert(!has_fault(opt_str@));
        }
        if long.as_str().is_empty() {
            return Err(ArgError::MissingLong);
        }
        Ok((short, long))
    }

    /// A copy of the flag, made from its descriptor and its state.
    fn copy(&self) -> (r: ArgOpt)
        ensures
            r@ == self@,
    {
        let descriptor = self.to_string();
        match ArgOpt::new_processed(descriptor.as_str(), self.state) {
            Ok(opt) => opt,
            Err(_) => vstd::pervasive::unreached(),
        }
    }

    /// Records the outcome of processing.
    fn set_state(&mut self, state: ArgState)
        ensures
            final(self)@ == (OptModel { state, ..old(self)@ }),
    {
        proof {
            use_type_invariant(&*self);
        }
        self.state = state;
    }

    /// Tells whether an argument named the flag when arguments were last
    /// processed. A flag that has not been through any processing has no
    /// answer yet.
    pub fn processed(&self) -> (r: Result<bool, ArgError>)
        ensures
            r == match self@.state {
                ArgState::Unprocessed => Err::<bool, ArgError>(ArgError::NotProcessed),
                ArgState::Matched => Ok(true),
                ArgState::NotMatched => Ok(false),
            },
    {
        match self.state {
            ArgState::Unprocessed => Err(ArgError::NotProcessed),
            ArgState::Matched => Ok(true),
            ArgState::NotMatched => Ok(false),
        }
    }

    /// The descriptor of the flag: its short name, if it has one, a slash,
    /// and its long name.
    pub fn to_string(&self) -> (r: String)
        ensures
            r@ == descriptor_of(self@.short, self@.long),
            described(r@) == Ok::<(Option<char>, Seq<char>), ArgFault>((self@.short, self@.long)),
    {
        proof {
            use_type_invariant(self);
            lemma_descriptor_round_trip(self@.short, self@.long);
        }
        let mut text = String::new();
        match self.short {
            Some(c) => {
                text.push(c);
            },
            None => {},
        }
        text.push('/');
        text.append(self.long.as_str());
        assert(text@ =~= descriptor_of(self@.short, self@.long));
        text
    }
}

/// In a descriptor without fault the slash stands where the long name
/// starts: every character up to it is accounted for.
pub proof fn lemma_slash_before_long(text: Seq<char>)
    requires
        !has_fault(text),
        text.len() >= long_start(text),
    ensures
        text[long_start(text) - 1] == '/',
{
    if short_of(text) is Some {
        assert(!is_fault(text, 1));
        assert(before_slash(text, 1));
    }
}

/// A character read behind the slash extends the long name by itself.
proof fn lemma_long_grows(text: Seq<char>, i: int)
    requires
        0 <= i < text.len(),
        !before_slash(text, i),
        forall|j: int| 0 <= j < i ==> !#[trigger] is_fault(text, j),
    ensures
        long_of(text.take(i + 1)) == long_of(text.take(i)).push(text[i]),
{
    let before = text.take(i);
    let now = text.take(i + 1);
    let slash = choose|j: int| 0 <= j < i && text[j] == '/';
    assert(short_of(now) == short_of(before));
    if short_of(before) is Some {
        assert(!is_fault(text, 1));
        assert(before_slash(text, 1));
        if i == 1 {
            assert(text[slash] == '/');
        }
    }
    assert(now.skip(long_start(now)) =~= before.skip(long_start(before)).push(text[i]));
}

/// The names read from a descriptor are valid names.
pub proof fn lemma_described_names_are_valid(text: Seq<char>)
    requires
        described(text) is Ok,
    ensures
        valid_names(described(text)->Ok_0.0, described(text)->Ok_0.1),
{
    let start = long_start(text);
    let long = long_of(text);
    lemma_slash_before_long(text);
    if short_of(text) is Some {
        assert(!is_fault(text, 0));
    }
    assert forall|i: int| 0 <= i < long.len() implies is_alphanumeric(#[trigger] long[i]) by {
        assert(long[i] == text[start + i]);
        assert(!is_fault(text, start + i));
        assert(!before_slash(text, start + i)) by {
            assert(text[start - 1] == '/');
        }
    }
}

/// Reading undoes writing: the descriptor of valid names is read as those
/// names.
pub proof fn lemma_descriptor_round_trip(short: Option<char>, long: Seq<char>)
    requires
        valid_names(short, long),
    ensures
        described(descriptor_of(short, long)) == Ok::<(Option<char>, Seq<char>), ArgFault>(
            (short, long),
        ),
{
    let text = descriptor_of(short, long);
    let start = long_start(text);
    assert(text[start - 1] == '/');
    assert forall|i: int| 0 <= i < text.len() implies !is_fault(text, i) by {
        if i >= start {
            assert(text[i] == long[i - start]);
            assert(!before_slash(text, i));
        }
    }
    assert(long_of(text) =~= long);
}

/// True when some member has this long name.
pub open spec fn has_long(opts: Seq<OptModel>, long: Seq<char>) -> bool {
    exists|i: int| 0 <= i < opts.len() && (#[trigger] opts[i]).long == long
}

/// The position of a member with this long name, where there is one.
pub open spec fn position_of(opts: Seq<OptModel>, long: Seq<char>) -> int {
    choose|i: int| 0 <= i < opts.len() && (#[trigger] opts[i]).long == long
}

/// True when the member at position `i` is the first with this long name.
pub open spec fn is_first_with_long(opts: Seq<OptModel>, long: Seq<char>, i: int) -> bool {
    &&& 0 <= i < opts.len()
    &&& opts[i].long == long
    &&& forall|k: int| 0 <= k < i ==> (#[trigger] opts[k]).long != long
}

/// True when the member at position `i` is the first with this short
/// name.
pub open spec fn is_first_with_short(opts: Seq<OptModel>, short: char, i: int) -> bool {
    &&& 0 <= i < opts.len()
    &&& opts[i].short == Some(short)
    &&& forall|k: int| 0 <= k < i ==> (#[trigger] opts[k]).short != Some(short)
}

/// True for an argument in the long form: two dashes and a name.
pub open spec fn is_long_form(arg: Seq<char>) -> bool {
    arg.len() >= 2 && arg[0] == '-' && arg[1] == '-'
}

/// True for an argument in the short form: one dash and a name.
pub open spec fn is_short_form(arg: Seq<char>) -> bool {
    arg.len() >= 1 && arg[0] == '-' && !is_long_form(arg)
}

/// True for an argument that is no flag: it does not start with a dash.
pub open spec fn is_plain(arg: Seq<char>) -> bool {
    arg.len() == 0 || arg[0] != '-'
}

/// True when the argument names the member at position `j`: the member is
/// the first whose long name follows the two dashes of the long form, or
/// the first whose short name is the one character that follows the dash
/// of the short form.
pub open spec fn names(opts: Seq<OptModel>, arg: Seq<char>, j: int) -> bool {
    if is_long_form(arg) {
        is_first_with_long(opts, arg.skip(2), j)
    } else if is_short_form(arg) {
        arg.len() == 2 && is_first_with_short(opts, arg[1], j)
    } else {
        false
    }
}

/// True when one of the first `n` arguments names the member at position
/// `j`.
pub open spec fn named_among(opts: Seq<OptModel>, args: Seq<Seq<char>>, n: int, j: int) -> bool {
    exists|k: int| 0 <= k < n && names(opts, #[trigger] args[k], j)
}

/// The state of the member at position `j` after the arguments have been
/// processed: matched if it was matched before or an argument names it, and
/// not matched otherwise.
pub open spec fn state_after(opts: Seq<OptModel>, args: Seq<Seq<char>>, j: int) -> ArgState {
    if opts[j].state == ArgState::Matched || named_among(opts, args, args.len() as int, j) {
        ArgState::Matched
    } else {
        ArgState::NotMatched
    }
}

/// The registry after the arguments have been processed: the same flags
/// with their new states.
pub open spec fn processed(opts: Seq<OptModel>, args: Seq<Seq<char>>) -> Seq<OptModel> {
    Seq::new(
        opts.len(),
        |j: int|
            OptModel {
                short: opts[j].short,
                long: opts[j].long,
                state: state_after(opts, args, j),
            },
    )
}

/// The arguments that are no flags, in order.
pub open spec fn plain_args(args: Seq<Seq<char>>) -> Seq<Seq<char>> {
    args.filter(|arg: Seq<char>| is_plain(arg))
}

/// True when two registries hold flags with the same names at the same
/// positions.
pub open spec fn same_names(a: Seq<OptModel>, b: Seq<OptModel>) -> bool {
    &&& a.len() == b.len()
    &&& forall|j: int|
        0 <= j < a.len() ==> (#[trigger] a[j]).short == b[j].short && a[j].long == b[j].long
}

/// Which member an argument names depends on the names alone.
pub proof fn lemma_names_by_names(a: Seq<OptModel>, b: Seq<OptModel>, arg: Seq<char>, j: int)
    requires
        same_names(a, b),
    ensures
        names(a, arg, j) == names(b, arg, j),
{
    if names(a, arg, j) {
        assert forall|k: int| 0 <= k <= j implies (#[trigger] b[k]).long == a[k].long && b[k].short
            == a[k].short by {
            assert(a[k].short == b[k].short);
        }
    }
}

/// One more argument: a member is named among the first `k + 1` arguments
/// when it is named among the first `k`, or by the argument at position
/// `k`.
pub proof fn lemma_named_among_next(opts: Seq<OptModel>, args: Seq<Seq<char>>, k: int)
    requires
        0 <= k < args.len(),
    ensures
        forall|i: int| #[trigger]
            named_among(opts, args, k + 1, i) == (named_among(opts, args, k, i) || names(
                opts,
                args[k],
                i,
            )),
{
    assert forall|i: int| #[trigger]
        named_among(opts, args, k + 1, i) == (named_among(opts, args, k, i) || names(
            opts,
            args[k],
            i,
        )) by {
        if named_among(opts, args, k, i) {
            let w = choose|w: int| 0 <= w < k && names(opts, #[trigger] args[w], i);
            assert(names(opts, args[w], i));
        }
    }
}

/// True when no two members share a short name.
pub open spec fn distinct_shorts(opts: Seq<OptModel>) -> bool {
    forall|i: int, j: int|
        0 <= i < j < opts.len() && (#[trigger] opts[i]).short is Some ==> opts[i].short != (
        #[trigger] opts[j]).short
}

/// The argument that names a flag by its long name.
pub open spec fn long_form_of(long: Seq<char>) -> Seq<char> {
    seq!['-', '-'] + long
}

/// The argument that names a flag by its short name.
pub open spec fn short_form_of(short: char) -> Seq<char> {
    seq!['-', short]
}

/// Processing finds what is there: in a registry whose flags differ in
/// their long and in their short names, a flag that was not matched before
/// is matched afterwards exactly when its long form or its short form is
/// among the arguments.
pub proof fn lemma_processing_finds_flags(opts: Seq<OptModel>, args: Seq<Seq<char>>, j: int)
    requires
        distinct_longs(opts),
        distinct_shorts(opts),
        0 <= j < opts.len(),
        valid_names(opts[j].short, opts[j].long),
        opts[j].state != ArgState::Matched,
    ensures
        processed(opts, args)[j].state == ArgState::Matched <==> {
            ||| args.contains(long_form_of(opts[j].long))
            ||| (opts[j].short is Some && args.contains(short_form_of(opts[j].short->Some_0)))
        },
        processed(opts, args)[j].state != ArgState::Matched ==> processed(opts, args)[j].state
            == ArgState::NotMatched,
{
    let long = opts[j].long;
    if named_among(opts, args, args.len() as int, j) {
        let k = choose|k: int| 0 <= k < args.len() && names(opts, #[trigger] args[k], j);
        if is_long_form(args[k]) {
            assert(args[k] =~= long_form_of(long));
        } else {
            assert(args[k] =~= short_form_of(opts[j].short->Some_0));
        }
    }
    if args.contains(long_form_of(long)) {
        let k = choose|k: int| 0 <= k < args.len() && args[k] == long_form_of(long);
        assert(args[k].skip(2) =~= long);
        assert(names(opts, args[k], j));
    }
    if opts[j].short is Some && args.contains(short_form_of(opts[j].short->Some_0)) {
        let c = opts[j].short->Some_0;
        let k = choose|k: int| 0 <= k < args.len() && args[k] == short_form_of(c);
        assert(names(opts, args[k], j));
    }
}

/// An argument names one member at most.
pub proof fn lemma_names_one(opts: Seq<OptModel>, arg: Seq<char>, i: int, j: int)
    requires
        names(opts, arg, i),
        names(opts, arg, j),
    ensures
        i == j,
{
}

/// True when no two members share a long name.
pub open spec fn distinct_longs(opts: Seq<OptModel>) -> bool {
    forall|i: int, j: int|
        0 <= i < j < opts.len() ==> (#[trigger] opts[i]).long != (#[trigger] opts[j]).long
}

/// What registering one more flag gives: the longer registry, or the
/// refusal of a long name that is taken.
pub open spec fn registered(opts: Seq<OptModel>, opt: OptModel) -> Result<Seq<OptModel>, ArgFault> {
    if has_long(opts, opt.long) {
        Err(ArgFault::DuplicateLong(opt.long))
    } else {
        Ok(opts.push(opt))
    }
}

/// True when the member at position `j` is the first whose long name an
/// earlier member has.
pub open spec fn is_first_repeat(opts: Seq<OptModel>, j: int) -> bool {
    &&& 0 <= j < opts.len()
    &&& distinct_longs(opts.take(j))
    &&& has_long(opts.take(j), opts[j].long)
}

/// The position of the first member whose long name an earlier member
/// has, where there is one.
pub open spec fn first_repeat(opts: Seq<OptModel>) -> int {
    choose|j: int| is_first_repeat(opts, j)
}

/// What registering flags one after another in an empty registry gives: a
/// registry of them all, or the refusal of the first long name that is
/// taken.
pub open spec fn registry_of(opts: Seq<OptModel>) -> Result<Seq<OptModel>, ArgFault> {
    if distinct_longs(opts) {
        Ok(opts)
    } else {
        Err(ArgFault::DuplicateLong(opts[first_repeat(opts)].long))
    }
}

/// There is at most one first repeat, and none among distinct long names.
pub proof fn lemma_first_repeat_unique(opts: Seq<OptModel>, j: int)
    requires
        is_first_repeat(opts, j),
    ensures
        !distinct_longs(opts),
        first_repeat(opts) == j,
{
    let early = opts.take(j);
    let i = choose|i: int| 0 <= i < early.len() && (#[trigger] early[i]).long == opts[j].long;
    assert(opts[i].long == opts[j].long);
    let k = first_repeat(opts);
    assert(is_first_repeat(opts, k));
    let first = opts.take(k);
    let h = choose|h: int| 0 <= h < first.len() && (#[trigger] first[h]).long == opts[k].long;
    if k < j {
        assert(early[h].long == early[k].long);
    } else if j < k {
        assert(first[i].long == first[j].long);
    }
}

/// What registering the flag of a descriptor gives: the longer registry,
/// the reason why the descriptor is rejected, or the refusal of a long name
/// that is taken.
pub open spec fn registered_descriptor(opts: Seq<OptModel>, text: Seq<char>) -> Result<
    Seq<OptModel>,
    ArgFault,
> {
    match flag_of(text, ArgState::Unprocessed) {
        Ok(opt) => registered(opts, opt),
        Err(fault) => Err(fault),
    }
}

/// The flags that a list of descriptors stands for, or the reason why the
/// first bad descriptor is rejected.
pub open spec fn described_all(texts: Seq<Seq<char>>) -> Result<Seq<OptModel>, ArgFault>
    decreases texts.len(),
{
    if texts.len() == 0 {
        Ok(Seq::empty())
    } else {
        match described_all(texts.drop_last()) {
            Err(fault) => Err(fault),
            Ok(opts) => match flag_of(texts.last(), ArgState::Unprocessed) {
                Err(fault) => Err(fault),
                Ok(opt) => Ok(opts.push(opt)),
            },
        }
    }
}

/// What making a registry from a list of descriptors gives. The
/// descriptors are all read first, so a bad descriptor is reported before
/// any long name that is taken.
pub open spec fn registry_of_descriptors(texts: Seq<Seq<char>>) -> Result<Seq<OptModel>, ArgFault> {
    match described_all(texts) {
        Ok(opts) => registry_of(opts),
        Err(fault) => Err(fault),
    }
}

/// How a registry is written: the descriptors of its flags, separated by a
/// comma and a space.
pub open spec fn listing(opts: Seq<OptModel>) -> Seq<char>
    decreases opts.len(),
{
    if opts.len() == 0 {
        Seq::empty()
    } else if opts.len() == 1 {
        descriptor_of(opts[0].short, opts[0].long)
    } else {
        listing(opts.drop_last()) + seq![',', ' '] + descriptor_of(
            opts.last().short,
            opts.last().long,
        )
    }
}

/// A registry of flags, in the order in which they were registered. No two
/// of its flags share a long name.
#[derive(Debug)]
pub struct ArgProcessor {
    opts: Vec<ArgOpt>,
}

impl View for ArgProcessor {
    type V = Seq<OptModel>;

    closed spec fn view(&self) -> Seq<OptModel> {
        self.opts.deep_view()
    }
}

impl ArgProcessor {
    /// The registry's invariant: no two of its flags share a long name.
    pub open spec fn wf(&self) -> bool {
        distinct_longs(self@)
    }

    /// An empty registry.
    pub fn new() -> (r: ArgProcessor)
        ensures
            r.wf(),
            r@ == Seq::<OptModel>::empty(),
    {
        let opts: Vec<ArgOpt> = Vec::new();
        assert(opts.deep_view() =~= Seq::<OptModel>::empty());
        ArgProcessor { opts }
    }

    /// Looks a long name up: the position of the first flag that has it.
    fn find(&self, long: &String) -> (r: Option<usize>)
        ensures
            match r {
                Some(i) => is_first_with_long(self@, long@, i as int),
                None => !has_long(self@, long@),
            },
    {
        let mut i: usize = 0;
        while i < self.opts.len()
            invariant
                i <= self.opts.len(),
                self@.len() == self.opts.len(),
                forall|k: int| 0 <= k < i ==> (#[trigger] self@[k]).long != long@,
            decreases self.opts.len() - i,
        {
            if self.opts[i].long == *long {
                return Some(i);
            }
            i = i + 1;
        }
        None
    }

    /// Looks a short name up: the position of the first flag that has it.
    fn find_short(&self, short: char) -> (r: Option<usize>)
        ensures
            match r {
                Some(i) => is_first_with_short(self@, short, i as int),
                None => forall|i: int| !is_first_with_short(self@, short, i),
            },
    {
        let mut i: usize = 0;
        while i < self.opts.len()
            invariant
                i <= self.opts.len(),
                self@.len() == self.opts.len(),
                forall|k: int| 0 <= k < i ==> (#[trigger] self@[k]).short != Some(short),
            decreases self.opts.len() - i,
        {
            match self.opts[i].short {
                Some(c) => {
                    if c == short {
                        return Some(i);
                    }
                },
                None => {},
            }
            i = i + 1;
        }
        None
    }

    /// The position of the flag that an argument names, if it names one.
    fn named_by(&self, arg: &str) -> (r: Option<usize>)
        ensures
            match r {
                Some(j) => names(self@, arg@, j as int),
                None => forall|j: int| !names(self@, arg@, j),
            },
    {
        let n = arg.unicode_len();
        if n >= 2 && arg.get_char(0) == '-' && arg.get_char(1) == '-' {
            let name = arg.substring_char(2, n).to_owned();
            assert(name@ =~= arg@.skip(2));
            self.find(&name)
        } else if n == 2 && arg.get_char(0) == '-' {
            self.find_short(arg.get_char(1))
        } else {
            None
        }
    }

    /// Registers a flag. A flag whose long name is taken is refused, and
    /// the registry stays as it was.
    pub fn add_opt(&mut self, opt: ArgOpt) -> (r: Result<(), ArgError>)
        requires
            old(self).wf(),
        ensures
            final(self).wf(),
            match registered(old(self)@, opt@) {
                Ok(opts) => r is Ok && final(self)@ == opts,
                Err(fault) => r matches Err(e) && e@ == fault && final(self)@ == old(self)@,
            },
    {
        match self.find(&opt.long) {
            Some(_) => Err(ArgError::DuplicateLong(opt.long)),
            None => {
                self.opts.push(opt);
                assert(self.opts.deep_view() =~= old(self)@.push(opt@));
                Ok(())
            },
        }
    }

    /// Looks for the registered flags among the arguments and returns the
    /// arguments that are no flags, in order. An argument that starts with
    /// two dashes names the flag whose long name follows them; an argument
    /// that starts with one dash names a flag by the short name that
    /// follows it; such arguments are dropped whether or not they name a
    /// flag. Where several flags share a short name, it names the one
    /// that was registered first. Afterwards every flag is matched or not
    /// matched: a flag that an argument names is matched, and so is one
    /// that was matched before.
    pub fn process(&mut self, input_args: Vec<String>) -> (output_args: Vec<String>)
        requires
            old(self).wf(),
        ensures
            final(self).wf(),
            final(self)@ == processed(old(self)@, input_args.deep_view()),
            output_args.deep_view() == plain_args(input_args.deep_view()),
    {
        let ghost before = self@;
        let ghost args = input_args.deep_view();
        let ghost plain = |arg: Seq<char>| is_plain(arg);
        let mut output_args: Vec<String> = Vec::new();
        let mut k: usize = 0;
        proof {
            reveal(Seq::filter);
            assert(args.take(0) =~= Seq::<Seq<char>>::empty());
            assert(output_args.deep_view() =~= args.take(0).filter(plain));
        }
        while k < input_args.len()
            invariant
                k <= input_args.len(),
                args == input_args.deep_view(),
                plain == |arg: Seq<char>| is_plain(arg),
                same_names(self@, before),
                self@.len() == self.opts.len(),
                forall|j: int|
                    0 <= j < before.len() ==> (#[trigger] self@[j]).state == if named_among(
                        before,
                        args,
                        k as int,
                        j,
                    ) {
                        ArgState::Matched
                    } else {
                        before[j].state
                    },
                output_args.deep_view() == args.take(k as int).filter(plain),
            decreases input_args.len() - k,
        {
            let arg = &input_args[k];
            let ghost here = self@;
            proof {
                assert(args.take(k + 1) =~= args.take(k as int).push(arg@));
                args.take(k as int).lemma_filter_push(arg@, plain);
                assert forall|j: int| names(here, arg@, j) == names(before, arg@, j) by {
                    lemma_names_by_names(here, before, arg@, j);
                }
                lemma_named_among_next(before, args, k as int);
            }
            if arg.as_str().unicode_len() >= 1 && arg.as_str().get_char(0) == '-' {
                match self.named_by(arg.as_str()) {
                    Some(j) => {
                        self.opts[j].set_state(ArgState::Matched);
                        proof {
                            assert(self@ =~= here.update(
                                j as int,
                                OptModel { state: ArgState::Matched, ..here[j as int] },
                            ));
                            assert forall|i: int| i != j implies !names(before, arg@, i) by {
                                if names(before, arg@, i) {
                                    lemma_names_one(before, arg@, i, j as int);
                                }
                            }
                        }
                    },
                    None => {},
                }
            } else {
                output_args.push(arg.clone());
                assert(output_args.deep_view() =~= args.take(k as int).filter(plain).push(arg@));
            }
            k = k + 1;
        }
        assert(args.take(k as int) =~= args);
        let mut j: usize = 0;
        let ghost matched = self@;
        while j < self.opts.len()
            invariant
                j <= self.opts.len(),
                self@.len() == self.opts.len(),
                same_names(self@, matched),
                forall|i: int|
                    0 <= i < j ==> (#[trigger] self@[i]).state == if matched[i].state
                        == ArgState::Unprocessed {
                        ArgState::NotMatched
                    } else {
                        matched[i].state
                    },
                forall|i: int| j <= i < matched.len() ==> (#[trigger] self@[i]).state == matched[i].state,
            decreases self.opts.len() - j,
        {
            match self.opts[j].state {
                ArgState::Unprocessed => {
                    let ghost here = self@;
                    self.opts[j].set_state(ArgState::NotMatched);
                    assert(self@ =~= here.update(
                        j as int,
                        OptModel { state: ArgState::NotMatched, ..here[j as int] },
                    ));
                },
                _ => {},
            }
            j = j + 1;
        }
        assert(self@ =~= processed(before, args));
        output_args
    }

    /// A registry of the given flags, registered in order. The first flag
    /// whose long name is taken by an earlier one is refused, and no
    /// registry is made.
    pub fn new_with_opts(opts: Vec<ArgOpt>) -> (r: Result<ArgProcessor, ArgError>)
        ensures
            match registry_of(opts.deep_view()) {
                Ok(all) => r matches Ok(a) && a.wf() && a@ == all,
                Err(fault) => r matches Err(e) && e@ == fault,
            },
    {
        let ghost all = opts.deep_view();
        let mut a = ArgProcessor::new();
        for opt in it: opts
            invariant
                it.seq() == opts@,
                all == opts.deep_view(),
                a.wf(),
                a@ == all.take(it.index()),
        {
            let ghost i = it.index();
            assert(opt@ == all[i]);
            match a.add_opt(opt) {
                Ok(_) => {
                    assert(all.take(i + 1) =~= all.take(i).push(all[i]));
                },
                Err(e) => {
                    proof {
                        lemma_first_repeat_unique(all, i);
                    }
                    return Err(e);
                },
            }
        }
        assert(all.take(all.len() as int) =~= all);
        Ok(a)
    }

    /// A registry of the flags that the descriptors stand for. All the
    /// descriptors are read before any flag is registered.
    pub fn new_with_opts_str(opts_str: Vec<&str>) -> (r: Result<ArgProcessor, ArgError>)
        ensures
            match registry_of_descriptors(opts_str.deep_view()) {
                Ok(all) => r matches Ok(a) && a.wf() && a@ == all,
                Err(fault) => r matches Err(e) && e@ == fault,
            },
    {
        let ghost texts = opts_str.deep_view();
        let mut opts: Vec<ArgOpt> = Vec::new();
        let mut i: usize = 0;
        assert(texts.take(0) =~= Seq::<Seq<char>>::empty());
        assert(opts.deep_view() =~= Seq::<OptModel>::empty());
        while i < opts_str.len()
            invariant
                i <= opts_str.len(),
                texts == opts_str.deep_view(),
                described_all(texts.take(i as int)) == Ok::<Seq<OptModel>, ArgFault>(
                    opts.deep_view(),
                ),
            decreases opts_str.len() - i,
        {
            let ghost upto = texts.take(i + 1);
            assert(upto.drop_last() =~= texts.take(i as int));
            assert(upto.last() == opts_str[i as int]@);
            match ArgOpt::new(opts_str[i]) {
                Ok(opt) => {
                    let ghost listed = opts.deep_view();
                    opts.push(opt);
                    assert(opts.deep_view() =~= listed.push(opt@));
                },
                Err(e) => {
                    proof {
                        lemma_described_all_stays_bad(texts, i + 1);
                    }
                    return Err(e);
                },
            }
            i = i + 1;
        }
        assert(texts.take(i as int) =~= texts);
        ArgProcessor::new_with_opts(opts)
    }

    /// Registers the flag that a descriptor stands for.
    pub fn add_opt_str(&mut self, opt_str: &str) -> (r: Result<(), ArgError>)
        requires
            old(self).wf(),
        ensures
            final(self).wf(),
            match registered_descriptor(old(self)@, opt_str@) {
                Ok(opts) => r is Ok && final(self)@ == opts,
                Err(fault) => r matches Err(e) && e@ == fault && final(self)@ == old(self)@,
            },
    {
        match ArgOpt::new(opt_str) {
            Ok(opt) => self.add_opt(opt),
            Err(e) => Err(e),
        }
    }

    /// Copies of the registered flags, in the order of their registration.
    pub fn opts(&self) -> (r: Vec<ArgOpt>)
        ensures
            r.deep_view() == self@,
    {
        let mut opts: Vec<ArgOpt> = Vec::new();
        let mut i: usize = 0;
        assert(opts.deep_view() =~= self@.take(0));
        while i < self.opts.len()
            invariant
                i <= self.opts.len(),
                self@.len() == self.opts.len(),
                opts.deep_view() == self@.take(i as int),
            decreases self.opts.len() - i,
        {
            let ghost copied = opts.deep_view();
            let copy = self.opts[i].copy();
            opts.push(copy);
            assert(opts.deep_view() =~= copied.push(copy@));
            assert(self@.take(i + 1) =~= self@.take(i as int).push(self@[i as int]));
            i = i + 1;
        }
        assert(self@.take(i as int) =~= self@);
        opts
    }

    /// A copy of the flag with this long name.
    pub fn opt(&self, long: &str) -> (r: Result<ArgOpt, ArgError>)
        requires
            self.wf(),
        ensures
            match r {
                Ok(opt) => has_long(self@, long@) && opt@ == self@[position_of(self@, long@)],
                Err(e) => !has_long(self@, long@) && e@ == ArgFault::UnknownLong(long@),
            },
    {
        let name = long.to_owned();
        match self.find(&name) {
            Some(i) => {
                proof {
                    let p = position_of(self@, long@);
                    assert(self@[p].long == self@[i as int].long);
                }
                Ok(self.opts[i].copy())
            },
            None => Err(ArgError::UnknownLong(name)),
        }
    }

    /// The registry in writing: its name, and in brackets the descriptors
    /// of its flags.
    pub fn to_string(&self) -> (r: String)
        ensures
            r@ == "ArgProcessor("@ + listing(self@) + ")"@,
    {
        let mut text = String::from_str("ArgProcessor(");
        let mut i: usize = 0;
        assert(self@.take(0) =~= Seq::<OptModel>::empty());
        assert(text@ =~= "ArgProcessor("@ + listing(self@.take(0)));
        while i < self.opts.len()
            invariant
                i <= self.opts.len(),
                self@.len() == self.opts.len(),
                text@ == "ArgProcessor("@ + listing(self@.take(i as int)),
            decreases self.opts.len() - i,
        {
            let ghost upto = self@.take(i + 1);
            assert(upto.drop_last() =~= self@.take(i as int));
            assert(upto.last() == self@[i as int]);
            let ghost listed = text@;
            if i > 0 {
                text.push(',');
                text.push(' ');
            }
            assert(text@ == if i > 0 {
                listed + seq![',', ' ']
            } else {
                listed
            }) by {
                assert(listed.push(',').push(' ') =~= listed + seq![',', ' ']);
            }
            let ghost written = text@;
            let descriptor = self.opts[i].to_string();
            text.append(descriptor.as_str());
            assert(text@ == "ArgProcessor("@ + listing(upto)) by {
                lemma_listing_grows("ArgProcessor("@, upto, written, text@);
            }
            i = i + 1;
        }
        assert(self@.take(i as int) =~= self@);
        text.push(')');
        proof {
            reveal_strlit(")");
            assert(text@ =~= "ArgProcessor("@ + listing(self@) + ")"@);
        }
        text
    }
}

/// One more flag in the listing: after the separator, if the flag is not
/// the first, its descriptor is appended.
proof fn lemma_listing_grows(
    lead: Seq<char>,
    opts: Seq<OptModel>,
    written: Seq<char>,
    text: Seq<char>,
)
    requires
        opts.len() > 0,
        written == if opts.len() > 1 {
            lead + listing(opts.drop_last()) + seq![',', ' ']
        } else {
            lead + listing(opts.drop_last())
        },
        text == written + descriptor_of(opts.last().short, opts.last().long),
    ensures
        text == lead + listing(opts),
{
    if opts.len() == 1 {
        assert(listing(opts.drop_last()) =~= Seq::<char>::empty());
        assert(text =~= lead + listing(opts));
    } else {
        assert(text =~= lead + listing(opts));
    }
}

/// Once a descriptor of a list is rejected, the list stays rejected for
/// the same reason, however it goes on.
pub proof fn lemma_described_all_stays_bad(texts: Seq<Seq<char>>, n: int)
    requires
        0 <= n <= texts.len(),
        described_all(texts.take(n)) is Err,
    ensures
        described_all(texts) == described_all(texts.take(n)),
    decreases texts.len() - n,
{
    if n < texts.len() {
        assert(texts.take(n + 1).drop_last() =~= texts.take(n));
        lemma_described_all_stays_bad(texts, n + 1);
    } else {
        assert(texts.take(n) =~= texts);
    }
}

} // verus!

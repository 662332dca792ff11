//! Command-line parsing: turns the program's arguments into a request to show
//! help, show the version, or render the film with given options.
//!
//! Arguments arrive as raw bytes, because an output path need not be UTF-8.
//! A `--time` value is read by a function that the caller supplies, so that
//! the time can be kept in whatever number type the caller renders with; so is
//! the extension of the output path, which depends on the platform's path rules.
use vstd::prelude::*;
use vstd::utf8::valid_utf8;
use crate::bytes::{copy_range, is_text, lemma_ascii_is_text, lemma_text_after_ascii, same};
use crate::decimal::{decimal_u32, read_u32};

verus! {

/// The byte `=`.
pub const EQUALS: u8 = 61;
/// The byte `-`.
pub const DASH: u8 = 45;

/// The options that take a value.
#[derive(Clone, Copy, Debug, PartialEq, Eq, Structural)]
pub enum Flag {
    Output,
    Still,
    Time,
    Fps,
    Width,
    Height,
}

/// The bytes of each option's name.
pub open spec fn flag_name(flag: Flag) -> Seq<u8> {
    match flag {
        // --output
        Flag::Output => seq![45u8, 45, 111, 117, 116, 112, 117, 116],
        // --still
        Flag::Still => seq![45u8, 45, 115, 116, 105, 108, 108],
        // --time
        Flag::Time => seq![45u8, 45, 116, 105, 109, 101],
        // --fps
        Flag::Fps => seq![45u8, 45, 102, 112, 115],
        // --width
        Flag::Width => seq![45u8, 45, 119, 105, 100, 116, 104],
        // --height
        Flag::Height => seq![45u8, 45, 104, 101, 105, 103, 104, 116],
    }
}

/// The option with this name, if any.
pub open spec fn flag_named(name: Seq<u8>) -> Option<Flag> {
    if name == flag_name(Flag::Output) {
        Some(Flag::Output)
    } else if name == flag_name(Flag::Still) {
        Some(Flag::Still)
    } else if name == flag_name(Flag::Time) {
        Some(Flag::Time)
    } else if name == flag_name(Flag::Fps) {
        Some(Flag::Fps)
    } else if name == flag_name(Flag::Width) {
        Some(Flag::Width)
    } else if name == flag_name(Flag::Height) {
        Some(Flag::Height)
    } else {
        None
    }
}

/// `--help`
pub open spec fn help_name() -> Seq<u8> {
    seq![45u8, 45, 104, 101, 108, 112]
}

/// `-h`
pub open spec fn short_help_name() -> Seq<u8> {
    seq![45u8, 104]
}

/// `--version`
pub open spec fn version_name() -> Seq<u8> {
    seq![45u8, 45, 118, 101, 114, 115, 105, 111, 110]
}

/// `-V`
pub open spec fn short_version_name() -> Seq<u8> {
    seq![45u8, 86]
}

/// The informational commands, which must be given on their own.
pub open spec fn is_informational(name: Seq<u8>) -> bool {
    name == help_name() || name == short_help_name() || name == version_name() || name
        == short_version_name()
}

/// The default output file, `homogeneous-coordinates.mp4`.
pub open spec fn default_path() -> Seq<u8> {
    seq![
        104u8, 111, 109, 111, 103, 101, 110, 101, 111, 117, 115, 45, 99, 111, 111, 114, 100,
        105, 110, 97, 116, 101, 115, 46, 109, 112, 52,
    ]
}

/// `png`
pub open spec fn png() -> Seq<u8> {
    seq![112u8, 110, 103]
}

/// `mp4`
pub open spec fn mp4() -> Seq<u8> {
    seq![109u8, 112, 52]
}

/// What to render. `T` is the number type of the still-frame time.
#[derive(Debug, PartialEq)]
pub struct Options<T> {
    /// Destination file, as the bytes of an operating-system path.
    pub path: Vec<u8>,
    /// One PNG frame instead of an MP4 video.
    pub still: bool,
    /// Time of the still frame, in seconds.
    pub seconds: T,
    pub fps: u32,
    pub width: u32,
    pub height: u32,
}

/// The mathematical content of `Options`.
pub struct OptionsView<T> {
    pub path: Seq<u8>,
    pub still: bool,
    pub seconds: T,
    pub fps: u32,
    pub width: u32,
    pub height: u32,
}

impl<T> View for Options<T> {
    type V = OptionsView<T>;

    open spec fn view(&self) -> OptionsView<T> {
        OptionsView {
            path: self.path@,
            still: self.still,
            seconds: self.seconds,
            fps: self.fps,
            width: self.width,
            height: self.height,
        }
    }
}

/// What the command line asks for.
#[derive(Debug, PartialEq)]
pub enum Request<T> {
    Help,
    Version,
    Render(Options<T>),
}

pub enum RequestView<T> {
    Help,
    Version,
    Render(OptionsView<T>),
}

impl<T> View for Request<T> {
    type V = RequestView<T>;

    open spec fn view(&self) -> RequestView<T> {
        match self {
            Request::Help => RequestView::Help,
            Request::Version => RequestView::Version,
            Request::Render(o) => RequestView::Render(o@),
        }
    }
}

/// Why a command line was refused.
#[derive(Debug, PartialEq)]
pub enum ArgError {
    /// An option name, or an argument holding one, is not valid UTF-8.
    NotText,
    /// `--help`, `-h`, `--version` or `-V` came with other arguments (the name given).
    NotAlone(Vec<u8>),
    /// An argument that names no option (the name given).
    Unknown(Vec<u8>),
    /// The option appeared twice.
    Repeated(Flag),
    /// The option has no value, an empty one, or one that starts with `--`.
    MissingValue(Flag),
    /// The `--time` value was refused by the time reader.
    InvalidTime,
    /// The value of `--fps`, `--width` or `--height` is not an allowed integer.
    InvalidInteger(Flag),
    /// `--output` and `--still` were both given.
    OutputWithStill,
    /// `--time` was given without `--still`.
    TimeWithoutStill,
    /// The output file does not end in `.png` (for a still) or `.mp4` (for a video).
    WrongExtension { still: bool },
}

pub enum ArgErrorView {
    NotText,
    NotAlone(Seq<u8>),
    Unknown(Seq<u8>),
    Repeated(Flag),
    MissingValue(Flag),
    InvalidTime,
    InvalidInteger(Flag),
    OutputWithStill,
    TimeWithoutStill,
    WrongExtension { still: bool },
}

impl View for ArgError {
    type V = ArgErrorView;

    open spec fn view(&self) -> ArgErrorView {
        match self {
            ArgError::NotText => ArgErrorView::NotText,
            ArgError::NotAlone(n) => ArgErrorView::NotAlone(n@),
            ArgError::Unknown(n) => ArgErrorView::Unknown(n@),
            ArgError::Repeated(f) => ArgErrorView::Repeated(*f),
            ArgError::MissingValue(f) => ArgErrorView::MissingValue(*f),
            ArgError::InvalidTime => ArgErrorView::InvalidTime,
            ArgError::InvalidInteger(f) => ArgErrorView::InvalidInteger(*f),
            ArgError::OutputWithStill => ArgErrorView::OutputWithStill,
            ArgError::TimeWithoutStill => ArgErrorView::TimeWithoutStill,
            ArgError::WrongExtension { still } => ArgErrorView::WrongExtension { still: *still },
        }
    }
}

pub open spec fn outcome<T>(r: Result<Request<T>, ArgError>) -> Result<RequestView<T>, ArgErrorView> {
    match r {
        Ok(q) => Ok(q@),
        Err(e) => Err(e@),
    }
}

/// Which options have been given so far.
#[derive(Clone, Copy)]
pub struct Seen {
    pub output: bool,
    pub still: bool,
    pub time: bool,
    pub fps: bool,
    pub width: bool,
    pub height: bool,
}

impl Seen {
    pub open spec fn none() -> Seen {
        Seen { output: false, still: false, time: false, fps: false, width: false, height: false }
    }

    pub open spec fn has(self, flag: Flag) -> bool {
        match flag {
            Flag::Output => self.output,
            Flag::Still => self.still,
            Flag::Time => self.time,
            Flag::Fps => self.fps,
            Flag::Width => self.width,
            Flag::Height => self.height,
        }
    }

    pub open spec fn with(self, flag: Flag) -> Seen {
        match flag {
            Flag::Output => Seen { output: true, ..self },
            Flag::Still => Seen { still: true, ..self },
            Flag::Time => Seen { time: true, ..self },
            Flag::Fps => Seen { fps: true, ..self },
            Flag::Width => Seen { width: true, ..self },
            Flag::Height => Seen { height: true, ..self },
        }
    }

    fn empty() -> (r: Seen)
        ensures
            r == Seen::none(),
    {
        Seen { output: false, still: false, time: false, fps: false, width: false, height: false }
    }

    fn contains(&self, flag: Flag) -> (r: bool)
        ensures
            r == self.has(flag),
    {
        match flag {
            Flag::Output => self.output,
            Flag::Still => self.still,
            Flag::Time => self.time,
            Flag::Fps => self.fps,
            Flag::Width => self.width,
            Flag::Height => self.height,
        }
    }

    fn insert(&mut self, flag: Flag)
        ensures
            *final(self) == old(self).with(flag),
    {
        match flag {
            Flag::Output => self.output = true,
            Flag::Still => self.still = true,
            Flag::Time => self.time = true,
            Flag::Fps => self.fps = true,
            Flag::Width => self.width = true,
            Flag::Height => self.height = true,
        }
    }
}

/// `k` is the position of the first `=` in `arg`.
pub open spec fn is_first_equals(arg: Seq<u8>, k: int) -> bool {
    &&& 0 <= k < arg.len()
    &&& arg[k] == EQUALS
    &&& forall|j: int| 0 <= j < k ==> arg[j] != EQUALS
}

/// An argument split at its first `=` into the option name and the value
/// written inline, as `str::split_once('=')` does.
pub open spec fn split_name(arg: Seq<u8>) -> (Seq<u8>, Option<Seq<u8>>) {
    if exists|k: int| is_first_equals(arg, k) {
        let k = choose|k: int| is_first_equals(arg, k);
        (arg.subrange(0, k), Some(arg.subrange(k + 1, arg.len() as int)))
    } else {
        (arg, None)
    }
}

/// The value of the option at `args[i]`: written inline (always text), or
/// else the whole next argument. Also gives where the next option starts.
pub open spec fn value_after(args: Seq<Seq<u8>>, i: int, inline: Option<Seq<u8>>) -> Option<
    (Seq<u8>, bool, int),
> {
    match inline {
        Some(v) => Some((v, true, i + 1)),
        None => if i + 1 < args.len() {
            Some((args[i + 1], valid_utf8(args[i + 1]), i + 2))
        } else {
            None
        },
    }
}

pub open spec fn starts_with_dashes(v: Seq<u8>) -> bool {
    v.len() >= 2 && v[0] == DASH && v[1] == DASH
}

/// A decimal integer in `min..=max`, and even where `even` is set.
pub open spec fn bounded(value: Seq<u8>, min: u32, max: u32, even: bool) -> Option<u32> {
    match decimal_u32(value) {
        Some(n) => if min <= n <= max && (!even || n % 2 == 0) {
            Some(n)
        } else {
            None
        },
        None => None,
    }
}

/// The allowed values of the integer options: the least, the greatest, and
/// whether the value must be even. `--fps` takes 12 to 60, `--width` an even
/// 640 to 3840, `--height` an even 360 to 2160.
pub open spec fn integer_bounds(flag: Flag) -> (u32, u32, bool) {
    match flag {
        Flag::Fps => (12, 60, false),
        Flag::Width => (640, 3840, true),
        _ => (360, 2160, true),
    }
}

pub open spec fn is_integer_flag(flag: Flag) -> bool {
    flag == Flag::Fps || flag == Flag::Width || flag == Flag::Height
}

/// The value of an integer option, where it is allowed.
pub open spec fn within(value: Seq<u8>, flag: Flag) -> Option<u32> {
    let (min, max, even) = integer_bounds(flag);
    bounded(value, min, max, even)
}

/// The effect of one option with its value. `time` is the time reader.
pub open spec fn assign<T>(
    st: OptionsView<T>,
    flag: Flag,
    value: Seq<u8>,
    text: bool,
    time: spec_fn(Seq<u8>) -> Option<T>,
) -> Result<OptionsView<T>, ArgErrorView> {
    match flag {
        Flag::Output => Ok(OptionsView { path: value, still: false, ..st }),
        Flag::Still => Ok(OptionsView { path: value, still: true, ..st }),
        Flag::Time => if !text {
            Err(ArgErrorView::InvalidTime)
        } else {
            match time(value) {
                Some(t) => Ok(OptionsView { seconds: t, ..st }),
                None => Err(ArgErrorView::InvalidTime),
            }
        },
        Flag::Fps => match within(value, flag) {
            Some(n) => Ok(OptionsView { fps: n, ..st }),
            None => Err(ArgErrorView::InvalidInteger(flag)),
        },
        Flag::Width => match within(value, flag) {
            Some(n) => Ok(OptionsView { width: n, ..st }),
            None => Err(ArgErrorView::InvalidInteger(flag)),
        },
        Flag::Height => match within(value, flag) {
            Some(n) => Ok(OptionsView { height: n, ..st }),
            None => Err(ArgErrorView::InvalidInteger(flag)),
        },
    }
}

/// Reads the options from `args[i]` on, starting from `st` with the options
/// in `seen` already given; stops at the first refused argument.
pub open spec fn scan<T>(
    args: Seq<Seq<u8>>,
    i: int,
    st: OptionsView<T>,
    seen: Seen,
    time: spec_fn(Seq<u8>) -> Option<T>,
) -> Result<(OptionsView<T>, Seen), ArgErrorView>
    decreases args.len() - i,
{
    if i < 0 || i >= args.len() {
        Ok((st, seen))
    } else if !valid_utf8(args[i]) {
        Err(ArgErrorView::NotText)
    } else {
        let (name, inline) = split_name(args[i]);
        match flag_named(name) {
            None => if is_informational(name) {
                Err(ArgErrorView::NotAlone(name))
            } else {
                Err(ArgErrorView::Unknown(name))
            },
            Some(flag) => if seen.has(flag) {
                Err(ArgErrorView::Repeated(flag))
            } else {
                match value_after(args, i, inline) {
                    None => Err(ArgErrorView::MissingValue(flag)),
                    Some((value, text, next)) => if value.len() == 0 || (text && starts_with_dashes(
                        value,
                    )) {
                        Err(ArgErrorView::MissingValue(flag))
                    } else {
                        match assign(st, flag, value, text, time) {
                            Err(e) => Err(e),
                            Ok(st2) => scan(args, next, st2, seen.with(flag), time),
                        }
                    },
                }
            },
        }
    }
}

pub open spec fn ascii_lower(b: u8) -> u8 {
    if 65 <= b <= 90 {
        (b + 32) as u8
    } else {
        b
    }
}

/// `eq_ignore_ascii_case` on byte strings.
pub open spec fn same_ignoring_ascii_case(a: Seq<u8>, b: Seq<u8>) -> bool {
    a.len() == b.len() && forall|i: int| 0 <= i < a.len() ==> ascii_lower(#[trigger] a[i]) == ascii_lower(b[i])
}

/// The output path's extension, as `ext` finds it, is `png` for a still and
/// `mp4` for a video, ignoring ASCII case.
pub open spec fn extension_fits(ext: spec_fn(Seq<u8>) -> Option<Seq<u8>>, path: Seq<u8>, still: bool) -> bool {
    match ext(path) {
        Some(e) => same_ignoring_ascii_case(e, if still { png() } else { mp4() }),
        None => false,
    }
}

pub open spec fn option_bytes(o: Option<Vec<u8>>) -> Option<Seq<u8>> {
    match o {
        Some(v) => Some(v@),
        None => None,
    }
}

/// `ext` tells what the closure `read` returns for every path it can be called on.
pub open spec fn finds_extension<E: Fn(&[u8]) -> Option<Vec<u8>>>(
    read: E,
    ext: spec_fn(Seq<u8>) -> Option<Seq<u8>>,
) -> bool {
    forall|s: &[u8], o: Option<Vec<u8>>| #[trigger] call_ensures(read, (s,), o) ==> option_bytes(o) == ext(s@)
}

/// A time reader that accepts nothing.
pub open spec fn no_time<T>() -> spec_fn(Seq<u8>) -> Option<T> {
    |v: Seq<u8>| None::<T>
}

/// The option name of argument `i`, the part before any `=`.
pub open spec fn name_at(args: Seq<Seq<u8>>, i: int) -> Seq<u8> {
    split_name(args[i]).0
}

/// Some argument names `flag`.
pub open spec fn names_option(args: Seq<Seq<u8>>, flag: Flag) -> bool {
    exists|i: int| 0 <= i < args.len() && #[trigger] name_at(args, i) == flag_name(flag)
}

/// The checks made once every option has been read.
pub open spec fn finish_spec<T>(st: OptionsView<T>, seen: Seen, ext: spec_fn(Seq<u8>) -> Option<Seq<u8>>) -> Result<
    RequestView<T>,
    ArgErrorView,
> {
    if seen.output && seen.still {
        Err(ArgErrorView::OutputWithStill)
    } else if seen.time && !st.still {
        Err(ArgErrorView::TimeWithoutStill)
    } else if !extension_fits(ext, st.path, st.still) {
        Err(ArgErrorView::WrongExtension { still: st.still })
    } else {
        Ok(RequestView::Render(st))
    }
}

/// The defaults: a 30 fps, 1920x1080 video to `homogeneous-coordinates.mp4`.
pub open spec fn defaults<T>(seconds: T) -> OptionsView<T> {
    OptionsView {
        path: default_path(),
        still: false,
        seconds: seconds,
        fps: 30,
        width: 1920,
        height: 1080,
    }
}

/// The whole command line: a lone `--help`/`-h` or `--version`/`-V`, or
/// options to render with.
pub open spec fn parse_spec<T>(
    args: Seq<Seq<u8>>,
    seconds: T,
    time: spec_fn(Seq<u8>) -> Option<T>,
    ext: spec_fn(Seq<u8>) -> Option<Seq<u8>>,
) -> Result<RequestView<T>, ArgErrorView> {
    if args.len() == 1 && (args[0] == help_name() || args[0] == short_help_name()) {
        Ok(RequestView::Help)
    } else if args.len() == 1 && (args[0] == version_name() || args[0] == short_version_name()) {
        Ok(RequestView::Version)
    } else {
        match scan(args, 0, defaults(seconds), Seen::none(), time) {
            Err(e) => Err(e),
            Ok((st, seen)) => finish_spec(st, seen, ext),
        }
    }
}

/// `time` tells what the closure `read` returns for every input it can be called on.
pub open spec fn reads_as<T, F: Fn(&[u8]) -> Option<T>>(
    read: F,
    time: spec_fn(Seq<u8>) -> Option<T>,
) -> bool {
    forall|s: &[u8], o: Option<T>| #[trigger] call_ensures(read, (s,), o) ==> o == time(s@)
}

fn flag_of(name: &[u8]) -> (r: Option<Flag>)
    ensures
        r == flag_named(name@),
{
    if same(name, &[45u8, 45, 111, 117, 116, 112, 117, 116]) {
        Some(Flag::Output)
    } else if same(name, &[45u8, 45, 115, 116, 105, 108, 108]) {
        Some(Flag::Still)
    } else if same(name, &[45u8, 45, 116, 105, 109, 101]) {
        Some(Flag::Time)
    } else if same(name, &[45u8, 45, 102, 112, 115]) {
        Some(Flag::Fps)
    } else if same(name, &[45u8, 45, 119, 105, 100, 116, 104]) {
        Some(Flag::Width)
    } else if same(name, &[45u8, 45, 104, 101, 105, 103, 104, 116]) {
        Some(Flag::Height)
    } else {
        None
    }
}

fn is_help(arg: &[u8]) -> (r: bool)
    ensures
        r == (arg@ == help_name() || arg@ == short_help_name()),
{
    same(arg, &[45u8, 45, 104, 101, 108, 112]) || same(arg, &[45u8, 104])
}

fn is_version(arg: &[u8]) -> (r: bool)
    ensures
        r == (arg@ == version_name() || arg@ == short_version_name()),
{
    same(arg, &[45u8, 45, 118, 101, 114, 115, 105, 111, 110]) || same(arg, &[45u8, 86])
}

/// Splits an argument at its first `=`.
fn split_at_equals(arg: &[u8]) -> (r: (Vec<u8>, Option<Vec<u8>>))
    ensures
        split_name(arg@) == (r.0@, match r.1 {
            Some(v) => Some(v@),
            None => None,
        }),
{
    let mut k: usize = 0;
    while k < arg.len()
        invariant
            k <= arg@.len(),
            forall|j: int| 0 <= j < k ==> arg@[j] != EQUALS,
        decreases arg.len() - k,
    {
        if arg[k] == EQUALS {
            assert(is_first_equals(arg@, k as int));
            let ghost c = choose|c: int| is_first_equals(arg@, c);
            assert(c == k) by {
                if c < k {
                    assert(arg@[c] != EQUALS);
                } else if c > k {
                    assert(arg@[k as int] != EQUALS);
                }
            }
            return (copy_range(arg, 0, k), Some(copy_range(arg, k + 1, arg.len())));
        }
        k += 1;
    }
    assert(!exists|c: int| is_first_equals(arg@, c));
    assert(arg@.subrange(0, arg@.len() as int) =~= arg@);
    (copy_range(arg, 0, arg.len()), None)
}

/// The allowed values of an integer option: least, greatest, and whether it must be even.
pub fn bounds(flag: Flag) -> (r: (u32, u32, bool))
    requires
        is_integer_flag(flag),
    ensures
        r == integer_bounds(flag),
{
    match flag {
        Flag::Fps => (12, 60, false),
        Flag::Width => (640, 3840, true),
        _ => (360, 2160, true),
    }
}

/// The name of an option, such as `--fps`.
pub fn flag_text(flag: Flag) -> (r: Vec<u8>)
    ensures
        r@ == flag_name(flag),
{
    let r = match flag {
        Flag::Output => vec![45u8, 45, 111, 117, 116, 112, 117, 116],
        Flag::Still => vec![45u8, 45, 115, 116, 105, 108, 108],
        Flag::Time => vec![45u8, 45, 116, 105, 109, 101],
        Flag::Fps => vec![45u8, 45, 102, 112, 115],
        Flag::Width => vec![45u8, 45, 119, 105, 100, 116, 104],
        Flag::Height => vec![45u8, 45, 104, 101, 105, 103, 104, 116],
    };
    assert(r@ =~= flag_name(flag));
    r
}

/// Reads the value of `--fps`, `--width` or `--height`: a decimal integer
/// within the option's bounds.
fn integer(flag: Flag, value: &[u8]) -> (r: Result<u32, ArgError>)
    requires
        is_integer_flag(flag),
    ensures
        match within(value@, flag) {
            Some(n) => r == Ok::<u32, ArgError>(n),
            None => r matches Err(ArgError::InvalidInteger(f)) && f == flag,
        },
{
    let (min, max, even) = bounds(flag);
    match read_u32(value) {
        Some(n) => {
            if min <= n && n <= max && (!even || n % 2 == 0) {
                Ok(n)
            } else {
                Err(ArgError::InvalidInteger(flag))
            }
        },
        None => Err(ArgError::InvalidInteger(flag)),
    }
}

fn lower(b: u8) -> (r: u8)
    ensures
        r == ascii_lower(b),
{
    if 65 <= b && b <= 90 {
        b + 32
    } else {
        b
    }
}

/// `eq_ignore_ascii_case` on byte strings.
pub fn same_ignoring_case(a: &[u8], b: &[u8]) -> (r: bool)
    ensures
        r == same_ignoring_ascii_case(a@, b@),
{
    if a.len() != b.len() {
        return false;
    }
    let mut i: usize = 0;
    while i < a.len()
        invariant
            a@.len() == b@.len(),
            i <= a@.len(),
            forall|t: int| 0 <= t < i ==> ascii_lower(#[trigger] a@[t]) == ascii_lower(b@[t]),
        decreases a.len() - i,
    {
        if lower(a[i]) != lower(b[i]) {
            return false;
        }
        i += 1;
    }
    true
}

/// Parses the program's arguments (without the program name).
///
/// `seconds` is the still-frame time used when `--time` is absent, and
/// `read_time` reads the text of a `--time` value: it gives the time, or
/// `None` when the value is not an acceptable time. This implementation
/// calls it only on `--time` values that are UTF-8 text. `read_extension`
/// gives the extension of an output path as the platform's path rules find
/// it (`Path::extension`), or `None` where the path has none.
pub fn parse<T, F: Fn(&[u8]) -> Option<T>, E: Fn(&[u8]) -> Option<Vec<u8>>>(
    args: &Vec<Vec<u8>>,
    seconds: T,
    read_time: F,
    read_extension: E,
) -> (r: Result<Request<T>, ArgError>)
    requires
        forall|s: &[u8]| call_requires(read_time, (s,)),
        forall|s: &[u8]| call_requires(read_extension, (s,)),
    ensures
        forall|time: spec_fn(Seq<u8>) -> Option<T>, ext: spec_fn(Seq<u8>) -> Option<Seq<u8>>|
            #![trigger reads_as(read_time, time), finds_extension(read_extension, ext)]
            reads_as(read_time, time) && finds_extension(read_extension, ext) ==> outcome(r)
                == parse_spec(args.deep_view(), seconds, time, ext),
        // Where no argument names --time, the time reader plays no part.
        forall|ext: spec_fn(Seq<u8>) -> Option<Seq<u8>>| #[trigger]
            finds_extension(read_extension, ext) && !names_option(args.deep_view(), Flag::Time)
                ==> outcome(r) == parse_spec(args.deep_view(), seconds, no_time(), ext),
        // Help and version are answered whatever the readers do.
        r matches Ok(Request::Help) <==> (args@.len() == 1 && (args@[0]@ == help_name()
            || args@[0]@ == short_help_name())),
        r matches Ok(Request::Version) <==> (args@.len() == 1 && (args@[0]@ == version_name()
            || args@[0]@ == short_version_name())),
{
    let ghost a = args.deep_view();
    if args.len() == 1 {
        assert(a[0] == args@[0]@);
        if is_help(args[0].as_slice()) {
            return Ok(Request::Help);
        }
        if is_version(args[0].as_slice()) {
            return Ok(Request::Version);
        }
    }
    let ghost informational = args.len() == 1 && (a[0] == help_name() || a[0] == short_help_name()
        || a[0] == version_name() || a[0] == short_version_name());
    assert(!informational);
    let mut options = Options {
        path: vec![
            104u8, 111, 109, 111, 103, 101, 110, 101, 111, 117, 115, 45, 99, 111, 111, 114,
            100, 105, 110, 97, 116, 101, 115, 46, 109, 112, 52,
        ],
        still: false,
        seconds: seconds,
        fps: 30,
        width: 1920,
        height: 1080,
    };
    assert(options@ == defaults(seconds)) by {
        assert(options.path@ =~= default_path());
    }
    let mut seen = Seen::empty();
    let mut i: usize = 0;
    while i < args.len()
        invariant
            a == args.deep_view(),
            a.len() == args@.len(),
            i <= args@.len(),
            !(args@.len() == 1 && (a[0] == help_name() || a[0] == short_help_name() || a[0]
                == version_name() || a[0] == short_version_name())),
            forall|s: &[u8]| call_requires(read_time, (s,)),
            forall|s: &[u8]| call_requires(read_extension, (s,)),
            forall|time: spec_fn(Seq<u8>) -> Option<T>| #[trigger]
                reads_as(read_time, time) ==> scan(a, 0, defaults(seconds), Seen::none(), time)
                    == scan(a, i as int, options@, seen, time),
            !names_option(a, Flag::Time) ==> scan(a, 0, defaults(seconds), Seen::none(), no_time())
                == scan(a, i as int, options@, seen, no_time()),
        decreases args.len() - i,
    {
        let arg = args[i].as_slice();
        assert(a[i as int] == arg@);
        if !is_text(arg) {
            return Err(ArgError::NotText);
        }
        let (name, inline) = split_at_equals(arg);
        let flag = match flag_of(name.as_slice()) {
            Some(f) => f,
            None => {
                if is_help(name.as_slice()) || is_version(name.as_slice()) {
                    return Err(ArgError::NotAlone(name));
                } else {
                    return Err(ArgError::Unknown(name));
                }
            },
        };
        if seen.contains(flag) {
            return Err(ArgError::Repeated(flag));
        }
        let ghost old_options = options@;
        seen.insert(flag);
        let ghost inline_view = match &inline {
            Some(v) => Some(v@),
            None => None,
        };
        let (value, text, next) = match inline {
            Some(v) => (v, true, i + 1),
            None => {
                if i + 1 < args.len() {
                    let v = copy_range(args[i + 1].as_slice(), 0, args[i + 1].len());
                    assert(args[i + 1 as int]@.subrange(0, args[i + 1 as int]@.len() as int)
                        =~= args[i + 1 as int]@);
                    assert(a[i + 1 as int] == v@);
                    let t = is_text(args[i + 1].as_slice());
                    (v, t, i + 2)
                } else {
                    return Err(ArgError::MissingValue(flag));
                }
            },
        };
        assert(value_after(a, i as int, inline_view) == Some((value@, text, next as int)));
        if value.len() == 0 || (text && value.len() >= 2 && value[0] == DASH && value[1] == DASH) {
            return Err(ArgError::MissingValue(flag));
        }
        match flag {
            Flag::Output => {
                options.path = value;
                options.still = false;
            },
            Flag::Still => {
                options.path = value;
                options.still = true;
            },
            Flag::Time => {
                assert(name_at(a, i as int) == flag_name(Flag::Time));
                assert(names_option(a, Flag::Time));
                let vs = value.as_slice();
                let read = if text {
                    read_time(vs)
                } else {
                    None
                };
                match read {
                    Some(t) => {
                        options.seconds = t;
                        assert forall|time: spec_fn(Seq<u8>) -> Option<T>| #[trigger]
                            reads_as(read_time, time) implies assign(
                            old_options,
                            flag,
                            value@,
                            text,
                            time,
                        ) == Ok::<OptionsView<T>, ArgErrorView>(options@) by {
                            assert(call_ensures(read_time, (vs,), read));
                        }
                    },
                    None => {
                        assert forall|time: spec_fn(Seq<u8>) -> Option<T>| #[trigger]
                            reads_as(read_time, time) implies assign(
                            old_options,
                            flag,
                            value@,
                            text,
                            time,
                        ) == Err::<OptionsView<T>, ArgErrorView>(ArgErrorView::InvalidTime) by {
                            if text {
                                assert(call_ensures(read_time, (vs,), read));
                            }
                        }
                        return Err(ArgError::InvalidTime);
                    },
                }
            },
            Flag::Fps => match integer(flag, value.as_slice()) {
                Ok(n) => options.fps = n,
                Err(e) => return Err(e),
            },
            Flag::Width => match integer(flag, value.as_slice()) {
                Ok(n) => options.width = n,
                Err(e) => return Err(e),
            },
            Flag::Height => match integer(flag, value.as_slice()) {
                Ok(n) => options.height = n,
                Err(e) => return Err(e),
            },
        }
        assert forall|time: spec_fn(Seq<u8>) -> Option<T>| #[trigger]
            reads_as(read_time, time) implies assign(old_options, flag, value@, text, time)
            == Ok::<OptionsView<T>, ArgErrorView>(options@) by {
        }
        proof {
            if !names_option(a, Flag::Time) {
                assert(flag != Flag::Time);
                assert(assign(old_options, flag, value@, text, no_time()) == Ok::<
                    OptionsView<T>,
                    ArgErrorView,
                >(options@));
            }
        }
        i = next;
    }
    assert(scan(a, i as int, options@, seen, no_time()) == Ok::<
        (OptionsView<T>, Seen),
        ArgErrorView,
    >((options@, seen)));
    if seen.output && seen.still {
        return Err(ArgError::OutputWithStill);
    }
    if seen.time && !options.still {
        return Err(ArgError::TimeWithoutStill);
    }
    let path = options.path.as_slice();
    let found = read_extension(path);
    let fits = match &found {
        Some(e) => if options.still {
            same_ignoring_case(e.as_slice(), &[112u8, 110, 103])
        } else {
            same_ignoring_case(e.as_slice(), &[109u8, 112, 52])
        },
        None => false,
    };
    assert forall|ext: spec_fn(Seq<u8>) -> Option<Seq<u8>>| #[trigger]
        finds_extension(read_extension, ext) implies fits == extension_fits(
        ext,
        options.path@,
        options.still,
    ) by {
        assert(call_ensures(read_extension, (path,), found));
    }
    if !fits {
        return Err(ArgError::WrongExtension { still: options.still });
    }
    Ok(Request::Render(options))
}

/// The numeric options are within their allowed ranges.
pub open spec fn in_range<T>(o: OptionsView<T>) -> bool {
    &&& 12 <= o.fps <= 60
    &&& 640 <= o.width <= 3840
    &&& o.width % 2 == 0
    &&& 360 <= o.height <= 2160
    &&& o.height % 2 == 0
}

proof fn lemma_scan_keeps_range<T>(
    args: Seq<Seq<u8>>,
    i: int,
    st: OptionsView<T>,
    seen: Seen,
    time: spec_fn(Seq<u8>) -> Option<T>,
)
    requires
        in_range(st),
    ensures
        scan(args, i, st, seen, time) matches Ok((o, _)) ==> in_range(o),
    decreases args.len() - i,
{
    if 0 <= i < args.len() && valid_utf8(args[i]) {
        let (name, inline) = split_name(args[i]);
        if let Some(flag) = flag_named(name) {
            if let Some((value, text, next)) = value_after(args, i, inline) {
                if let Ok(st2) = assign(st, flag, value, text, time) {
                    lemma_scan_keeps_range(args, next, st2, seen.with(flag), time);
                }
            }
        }
    }
}

/// A render request is only ever granted with a frame rate from 12 to 60, an
/// even width from 640 to 3840, an even height from 360 to 2160, and an output
/// file whose extension is `png` for a still and `mp4` for a video: values
/// outside these are refused, never adjusted.
pub proof fn granted_requests_are_valid<T>(
    args: Seq<Seq<u8>>,
    seconds: T,
    time: spec_fn(Seq<u8>) -> Option<T>,
    ext: spec_fn(Seq<u8>) -> Option<Seq<u8>>,
)
    ensures
        parse_spec(args, seconds, time, ext) matches Ok(RequestView::Render(o)) ==> {
            &&& in_range(o)
            &&& extension_fits(ext, o.path, o.still)
        },
{
    lemma_scan_keeps_range(args, 0, defaults(seconds), Seen::none(), time);
}

/// `t` is the time that `time` reads from argument `i`: the whole argument,
/// or its part after the first `=`.
pub open spec fn time_read_at<T>(
    args: Seq<Seq<u8>>,
    i: int,
    time: spec_fn(Seq<u8>) -> Option<T>,
    t: T,
) -> bool {
    time(args[i]) == Some(t) || (split_name(args[i]).1 matches Some(v) && time(v) == Some(t))
}

/// The time is the default or one read from some argument.
pub open spec fn time_is_given<T>(
    args: Seq<Seq<u8>>,
    seconds: T,
    time: spec_fn(Seq<u8>) -> Option<T>,
    t: T,
) -> bool {
    t == seconds || exists|i: int| 0 <= i < args.len() && #[trigger] time_read_at(args, i, time, t)
}

proof fn lemma_scan_keeps_time<T>(
    args: Seq<Seq<u8>>,
    i: int,
    st: OptionsView<T>,
    seen: Seen,
    seconds: T,
    time: spec_fn(Seq<u8>) -> Option<T>,
)
    requires
        time_is_given(args, seconds, time, st.seconds),
    ensures
        scan(args, i, st, seen, time) matches Ok((o, _)) ==> time_is_given(args, seconds, time, o.seconds),
    decreases args.len() - i,
{
    if 0 <= i < args.len() && valid_utf8(args[i]) {
        let (name, inline) = split_name(args[i]);
        if let Some(flag) = flag_named(name) {
            if let Some((value, text, next)) = value_after(args, i, inline) {
                if let Ok(st2) = assign(st, flag, value, text, time) {
                    if flag == Flag::Time {
                        match inline {
                            Some(v) => assert(time_read_at(args, i, time, st2.seconds)),
                            None => assert(time_read_at(args, i + 1, time, st2.seconds)),
                        }
                    }
                    lemma_scan_keeps_time(args, next, st2, seen.with(flag), seconds, time);
                }
            }
        }
    }
}

/// A granted render request's time is the default, or a time that the time
/// reader gave for one of the arguments (a whole argument or its part after
/// `=`); it is the default unless the request is for a still.
pub proof fn granted_time_was_read<T>(
    args: Seq<Seq<u8>>,
    seconds: T,
    time: spec_fn(Seq<u8>) -> Option<T>,
    ext: spec_fn(Seq<u8>) -> Option<Seq<u8>>,
)
    ensures
        parse_spec(args, seconds, time, ext) matches Ok(RequestView::Render(o)) ==> {
            &&& time_is_given(args, seconds, time, o.seconds)
            &&& !o.still ==> o.seconds == seconds
        },
{
    lemma_scan_keeps_time(args, 0, defaults(seconds), Seen::none(), seconds, time);
    crate::cli_laws::absent_options_keep_defaults(args, seconds, time, ext);
}

/// Help and version are shown only when asked for on their own.
pub proof fn informational_requests_stand_alone<T>(
    args: Seq<Seq<u8>>,
    seconds: T,
    time: spec_fn(Seq<u8>) -> Option<T>,
    ext: spec_fn(Seq<u8>) -> Option<Seq<u8>>,
)
    ensures
        parse_spec(args, seconds, time, ext) matches Ok(RequestView::Help) <==> (args.len() == 1 && (
        args[0] == help_name() || args[0] == short_help_name())),
        parse_spec(args, seconds, time, ext) matches Ok(RequestView::Version) <==> (args.len() == 1 && (
        args[0] == version_name() || args[0] == short_version_name())),
{
}

/// Reading options depends only on the arguments from `i` on.
pub(crate) proof fn lemma_scan_from<T>(
    args: Seq<Seq<u8>>,
    i: int,
    st: OptionsView<T>,
    seen: Seen,
    time: spec_fn(Seq<u8>) -> Option<T>,
)
    requires
        0 <= i <= args.len(),
    ensures
        scan(args, i, st, seen, time) == scan(args.subrange(i, args.len() as int), 0, st, seen, time),
    decreases args.len() - i,
{
    let rest = args.subrange(i, args.len() as int);
    if i < args.len() && valid_utf8(args[i]) {
        assert(rest[0] == args[i]);
        let (name, inline) = split_name(args[i]);
        if let Some(flag) = flag_named(name) {
            if inline is None && i + 1 < args.len() {
                assert(rest[1] == args[i + 1]);
            }
            assert(value_after(rest, 0, inline) == match value_after(args, i, inline) {
                Some((v, t, next)) => Some((v, t, next - i)),
                None => None,
            });
            if let Some((value, text, next)) = value_after(args, i, inline) {
                if let Ok(st2) = assign(st, flag, value, text, time) {
                    lemma_scan_from(args, next, st2, seen.with(flag), time);
                    lemma_scan_from(rest, next - i, st2, seen.with(flag), time);
                    assert(rest.subrange(next - i, rest.len() as int) =~= args.subrange(
                        next,
                        args.len() as int,
                    ));
                }
            }
        }
    }
}

/// Splitting `name=value` at the first `=`, where `name` holds no `=`.
pub(crate) proof fn lemma_split_joined(name: Seq<u8>, value: Seq<u8>)
    requires
        forall|j: int| 0 <= j < name.len() ==> name[j] != EQUALS,
    ensures
        split_name(name + seq![EQUALS] + value) == (name, Some(value)),
{
    let joined = name + seq![EQUALS] + value;
    let k = name.len() as int;
    assert(is_first_equals(joined, k));
    let c = choose|c: int| is_first_equals(joined, c);
    assert(c == k) by {
        if c < k {
            assert(joined[c] == name[c]);
        } else if c > k {
            assert(joined[k] == EQUALS);
        }
    }
    assert(joined.subrange(0, k) =~= name);
    assert(joined.subrange(k + 1, joined.len() as int) =~= value);
}

/// Reading `name=value` and reading `name` followed by `value` agree, from
/// any state, when the joined argument is UTF-8 text.
proof fn lemma_forms_agree_first<T>(
    flag: Flag,
    value: Seq<u8>,
    rest: Seq<Seq<u8>>,
    st: OptionsView<T>,
    seen: Seen,
    time: spec_fn(Seq<u8>) -> Option<T>,
)
    requires
        valid_utf8(flag_name(flag) + seq![EQUALS] + value),
    ensures
        scan(seq![flag_name(flag) + seq![EQUALS] + value] + rest, 0, st, seen, time) == scan(
            seq![flag_name(flag), value] + rest,
            0,
            st,
            seen,
            time,
        ),
{
    let name = flag_name(flag);
    let joined = name + seq![EQUALS] + value;
    let a1 = seq![joined] + rest;
    let a2 = seq![name, value] + rest;
    assert(forall|j: int| 0 <= j < name.len() ==> name[j] != EQUALS);
    lemma_split_joined(name, value);
    assert(valid_utf8(name)) by {
        lemma_ascii_is_text(name);
    }
    assert(valid_utf8(value)) by {
        let head = name + seq![EQUALS];
        assert(head + value =~= joined);
        assert forall|i: int| 0 <= i < head.len() implies #[trigger] head[i] < 128 by {
            if i < name.len() {
                assert(head[i] == name[i]);
            }
        }
        lemma_text_after_ascii(head, value);
    }
    assert(split_name(name) == (name, None::<Seq<u8>>)) by {
        assert(!exists|c: int| is_first_equals(name, c));
        assert(name.subrange(0, name.len() as int) =~= name);
    }
    assert(flag_named(name) == Some(flag));
    assert(a1[0] == joined);
    assert(a2[0] == name && a2[1] == value);
    match assign(st, flag, value, true, time) {
        Ok(st2) => {
            lemma_scan_from(a1, 1, st2, seen.with(flag), time);
            lemma_scan_from(a2, 2, st2, seen.with(flag), time);
            assert(a1.subrange(1, a1.len() as int) =~= rest);
            assert(a2.subrange(2, a2.len() as int) =~= rest);
        },
        Err(_) => {},
    }
}

/// Wherever an option is read, its value may be written after an `=` or as
/// the next argument: `name=value` and `name value` are read alike, whenever
/// the joined argument is UTF-8 text.
pub proof fn value_forms_agree<T>(
    before: Seq<Seq<u8>>,
    flag: Flag,
    value: Seq<u8>,
    rest: Seq<Seq<u8>>,
    st: OptionsView<T>,
    seen: Seen,
    time: spec_fn(Seq<u8>) -> Option<T>,
)
    requires
        valid_utf8(flag_name(flag) + seq![EQUALS] + value),
    ensures
        scan(
            before + seq![flag_name(flag) + seq![EQUALS] + value] + rest,
            before.len() as int,
            st,
            seen,
            time,
        ) == scan(before + seq![flag_name(flag), value] + rest, before.len() as int, st, seen, time),
{
    let joined = flag_name(flag) + seq![EQUALS] + value;
    let a1 = before + seq![joined] + rest;
    let a2 = before + seq![flag_name(flag), value] + rest;
    lemma_scan_from(a1, before.len() as int, st, seen, time);
    lemma_scan_from(a2, before.len() as int, st, seen, time);
    assert(a1.subrange(before.len() as int, a1.len() as int) =~= seq![joined] + rest);
    assert(a2.subrange(before.len() as int, a2.len() as int) =~= seq![flag_name(flag), value]
        + rest);
    lemma_forms_agree_first(flag, value, rest, st, seen, time);
}

/// A command line that starts with an option reads alike with its value
/// written as `--option=VALUE` or as `--option VALUE`, whenever the joined
/// argument is UTF-8 text.
pub proof fn inline_and_separate_values_agree<T>(
    flag: Flag,
    value: Seq<u8>,
    rest: Seq<Seq<u8>>,
    seconds: T,
    time: spec_fn(Seq<u8>) -> Option<T>,
    ext: spec_fn(Seq<u8>) -> Option<Seq<u8>>,
)
    requires
        valid_utf8(flag_name(flag) + seq![EQUALS] + value),
    ensures
        parse_spec(seq![flag_name(flag) + seq![EQUALS] + value] + rest, seconds, time, ext)
            == parse_spec(seq![flag_name(flag), value] + rest, seconds, time, ext),
{
    let name = flag_name(flag);
    let joined = name + seq![EQUALS] + value;
    let a1 = seq![joined] + rest;
    let a2 = seq![name, value] + rest;
    assert(a1[0] == joined);
    // Neither list is a lone informational command.
    assert(joined != help_name() && joined != short_help_name() && joined != version_name()
        && joined != short_version_name()) by {
        let k = name.len() as int;
        assert(joined[k] == EQUALS);
        if joined == help_name() || joined == short_help_name() || joined == version_name()
            || joined == short_version_name() {
            assert(joined[k] == EQUALS);
        }
    }
    lemma_forms_agree_first(flag, value, rest, defaults(seconds), Seen::none(), time);
}

} // verus!

//! Laws of the command line over lists of options written as
//! `--option=VALUE` or `--option VALUE`: which lists are refused, that the two
//! spellings agree, that the order of the options does not matter, and that an
//! option not given keeps its default.
use vstd::prelude::*;
use vstd::utf8::valid_utf8;
use crate::bytes::{lemma_ascii_is_text, lemma_text_after_ascii};
use crate::decimal::{all_digits, decimal_u32, digits_value, is_digit};
use crate::cli::{
    assign, default_path, defaults, finish_spec, flag_name, flag_named, help_name,
    is_first_equals, lemma_scan_from, lemma_split_joined, parse_spec, scan, short_help_name,
    short_version_name, split_name, starts_with_dashes, value_after, version_name, within,
    ArgErrorView, Flag, OptionsView, RequestView, Seen, EQUALS, name_at, names_option,
};

verus! {

/// One option with its value, written as one argument `--option=VALUE`
/// (`inline`) or as the two arguments `--option VALUE`.
pub struct OptionArg {
    pub flag: Flag,
    pub value: Seq<u8>,
    pub inline: bool,
}

/// `--option=VALUE`
pub open spec fn joined(flag: Flag, value: Seq<u8>) -> Seq<u8> {
    flag_name(flag) + seq![EQUALS] + value
}

/// The arguments that write one option.
pub open spec fn spell_one(a: OptionArg) -> Seq<Seq<u8>> {
    if a.inline {
        seq![joined(a.flag, a.value)]
    } else {
        seq![flag_name(a.flag), a.value]
    }
}

/// The arguments that write a list of options, in order.
pub open spec fn spell(items: Seq<OptionArg>) -> Seq<Seq<u8>>
    decreases items.len(),
{
    if items.len() == 0 {
        Seq::empty()
    } else {
        spell_one(items[0]) + spell(items.drop_first())
    }
}

/// The value is read as text: it was written inline, or is UTF-8.
pub open spec fn text_value(a: OptionArg) -> bool {
    a.inline || valid_utf8(a.value)
}

/// Reading one written option, as the parser does.
pub open spec fn read_item<T>(
    st: OptionsView<T>,
    seen: Seen,
    a: OptionArg,
    time: spec_fn(Seq<u8>) -> Option<T>,
) -> Result<(OptionsView<T>, Seen), ArgErrorView> {
    if a.inline && !valid_utf8(joined(a.flag, a.value)) {
        Err(ArgErrorView::NotText)
    } else if seen.has(a.flag) {
        Err(ArgErrorView::Repeated(a.flag))
    } else if a.value.len() == 0 || (text_value(a) && starts_with_dashes(a.value)) {
        Err(ArgErrorView::MissingValue(a.flag))
    } else {
        match assign(st, a.flag, a.value, text_value(a), time) {
            Err(e) => Err(e),
            Ok(st2) => Ok((st2, seen.with(a.flag))),
        }
    }
}

/// Reading a list of written options, stopping at the first refused one.
pub open spec fn read_items<T>(
    items: Seq<OptionArg>,
    st: OptionsView<T>,
    seen: Seen,
    time: spec_fn(Seq<u8>) -> Option<T>,
) -> Result<(OptionsView<T>, Seen), ArgErrorView>
    decreases items.len(),
{
    if items.len() == 0 {
        Ok((st, seen))
    } else {
        match read_item(st, seen, items[0], time) {
            Err(e) => Err(e),
            Ok((st2, seen2)) => read_items(items.drop_first(), st2, seen2, time),
        }
    }
}

/// The list gives `flag`.
pub open spec fn mentions(items: Seq<OptionArg>, flag: Flag) -> bool {
    exists|i: int| 0 <= i < items.len() && #[trigger] items[i].flag == flag
}

/// The list gives some option twice.
pub open spec fn repeats(items: Seq<OptionArg>) -> bool {
    exists|i: int, j: int|
        0 <= i < j < items.len() && #[trigger] items[i].flag == #[trigger] items[j].flag
}

/// Facts about each option name: it holds no `=`, is ASCII text, and names its option.
proof fn lemma_flag_name(flag: Flag)
    ensures
        forall|j: int|
            0 <= j < flag_name(flag).len() ==> #[trigger] flag_name(flag)[j] != EQUALS
                && flag_name(flag)[j] < 128,
        5 <= flag_name(flag).len() <= 8,
        valid_utf8(flag_name(flag)),
        split_name(flag_name(flag)) == (flag_name(flag), None::<Seq<u8>>),
        flag_named(flag_name(flag)) == Some(flag),
{
    let name = flag_name(flag);
    lemma_ascii_is_text(name);
    assert(!exists|c: int| is_first_equals(name, c));
    assert(name.subrange(0, name.len() as int) =~= name);
}

/// `--option=VALUE` is UTF-8 exactly when its value is.
proof fn lemma_joined_text(flag: Flag, value: Seq<u8>)
    ensures
        valid_utf8(joined(flag, value)) == valid_utf8(value),
{
    let name = flag_name(flag);
    lemma_flag_name(flag);
    let head = name + seq![EQUALS];
    assert(head + value =~= joined(flag, value));
    assert forall|i: int| 0 <= i < head.len() implies #[trigger] head[i] < 128 by {
        if i < name.len() {
            assert(head[i] == name[i]);
        }
    }
    if valid_utf8(joined(flag, value)) {
        lemma_text_after_ascii(head, value);
    }
    if valid_utf8(value) {
        lemma_ascii_is_text(head);
        vstd::utf8::valid_utf8_concat(head, value);
    }
}

/// The parser reads written options one after another.
proof fn lemma_scan_spelled<T>(
    items: Seq<OptionArg>,
    st: OptionsView<T>,
    seen: Seen,
    time: spec_fn(Seq<u8>) -> Option<T>,
)
    ensures
        scan(spell(items), 0, st, seen, time) == read_items(items, st, seen, time),
    decreases items.len(),
{
    if items.len() > 0 {
        let a = items[0];
        let rest = items.drop_first();
        let args = spell(items);
        let name = flag_name(a.flag);
        lemma_flag_name(a.flag);
        let k: int = if a.inline {
            1
        } else {
            2
        };
        assert(args =~= spell_one(a) + spell(rest));
        assert(args.subrange(k, args.len() as int) =~= spell(rest));
        if a.inline {
            assert(args[0] == joined(a.flag, a.value));
            if valid_utf8(joined(a.flag, a.value)) {
                lemma_split_joined(name, a.value);
                assert(value_after(args, 0, Some(a.value)) == Some((a.value, true, 1int)));
            }
        } else {
            assert(args[0] == name);
            assert(args[1] == a.value);
        }
        match read_item(st, seen, a, time) {
            Ok((st2, seen2)) => {
                lemma_scan_from(args, k, st2, seen2, time);
                lemma_scan_spelled(rest, st2, seen2, time);
            },
            Err(_) => {},
        }
    }
}

/// A written option list is never a lone informational command, so the whole
/// command line is the list read from the defaults, then the final checks.
proof fn lemma_parse_spelled<T>(
    items: Seq<OptionArg>,
    seconds: T,
    time: spec_fn(Seq<u8>) -> Option<T>,
    ext: spec_fn(Seq<u8>) -> Option<Seq<u8>>,
)
    ensures
        parse_spec(spell(items), seconds, time, ext) == match read_items(
            items,
            defaults(seconds),
            Seen::none(),
            time,
        ) {
            Err(e) => Err(e),
            Ok((st, seen)) => finish_spec(st, seen, ext),
        },
{
    lemma_scan_spelled(items, defaults(seconds), Seen::none(), time);
    let args = spell(items);
    if items.len() > 0 {
        let a = items[0];
        assert(args =~= spell_one(a) + spell(items.drop_first()));
        if args.len() == 1 {
            assert(a.inline);
            let name = flag_name(a.flag);
            let j = joined(a.flag, a.value);
            lemma_flag_name(a.flag);
            assert(args[0] == j);
            let k = name.len() as int;
            assert(j[k] == EQUALS);
            assert(j != help_name() && j != short_help_name() && j != version_name() && j
                != short_version_name()) by {
                if j == help_name() || j == short_help_name() || j == version_name() || j
                    == short_version_name() {
                    assert(j[k] == EQUALS);
                }
            }
        }
    }
}

/// Whether an option can be read, whatever was read before it.
pub open spec fn item_ok<T>(a: OptionArg, time: spec_fn(Seq<u8>) -> Option<T>) -> bool {
    &&& !(a.inline && !valid_utf8(joined(a.flag, a.value)))
    &&& !(a.value.len() == 0 || (text_value(a) && starts_with_dashes(a.value)))
    &&& match a.flag {
        Flag::Output | Flag::Still => true,
        Flag::Time => text_value(a) && time(a.value) is Some,
        _ => within(a.value, a.flag) is Some,
    }
}

proof fn lemma_mentions_first(items: Seq<OptionArg>, flag: Flag)
    requires
        items.len() > 0,
    ensures
        mentions(items, flag) == (items[0].flag == flag || mentions(items.drop_first(), flag)),
{
    let rest = items.drop_first();
    if mentions(items, flag) && items[0].flag != flag {
        let i = choose|i: int| 0 <= i < items.len() && #[trigger] items[i].flag == flag;
        assert(rest[i - 1].flag == flag);
    }
    if mentions(rest, flag) {
        let i = choose|i: int| 0 <= i < rest.len() && #[trigger] rest[i].flag == flag;
        assert(items[i + 1].flag == flag);
    }
    if items[0].flag == flag {
        assert(items[0].flag == flag);
    }
}

/// What a successful reading of a list tells: no option is given twice or was
/// given before, every option can be read, the options seen are those given,
/// and a still is only made when `--still` is given.
proof fn lemma_read_items_facts<T>(
    items: Seq<OptionArg>,
    st: OptionsView<T>,
    seen: Seen,
    time: spec_fn(Seq<u8>) -> Option<T>,
)
    ensures
        read_items(items, st, seen, time) matches Ok((o, s2)) ==> {
            &&& !repeats(items)
            &&& forall|i: int|
                0 <= i < items.len() ==> !seen.has(#[trigger] items[i].flag) && item_ok(
                    items[i],
                    time,
                )
            &&& forall|f: Flag| #[trigger] s2.has(f) == (seen.has(f) || mentions(items, f))
            &&& (!mentions(items, Flag::Still) && !st.still) ==> !o.still
        },
    decreases items.len(),
{
    if items.len() == 0 {
        assert forall|f: Flag| !mentions(items, f) by {}
    } else {
        let a = items[0];
        let rest = items.drop_first();
        if let Ok((st2, seen2)) = read_item(st, seen, a, time) {
            lemma_read_items_facts(rest, st2, seen2, time);
            if let Ok((o, s2)) = read_items(rest, st2, seen2, time) {
                assert(!repeats(items)) by {
                    if repeats(items) {
                        let (i, j) = choose|i: int, j: int|
                            0 <= i < j < items.len() && #[trigger] items[i].flag
                                == #[trigger] items[j].flag;
                        if i == 0 {
                            assert(rest[j - 1] == items[j]);
                            assert(seen2.has(items[j].flag));
                        } else {
                            assert(rest[i - 1] == items[i] && rest[j - 1] == items[j]);
                        }
                    }
                }
                assert forall|i: int| 0 <= i < items.len() implies !seen.has(
                    #[trigger] items[i].flag,
                ) && item_ok(items[i], time) by {
                    if i > 0 {
                        assert(rest[i - 1] == items[i]);
                    }
                }
                assert forall|f: Flag| #[trigger] s2.has(f) == (seen.has(f) || mentions(items, f)) by {
                    lemma_mentions_first(items, f);
                }
                lemma_mentions_first(items, Flag::Still);
            }
        }
    }
}

/// A list that gives an option twice, gives `--output` with `--still`, or
/// gives `--time` without `--still`, is refused.
pub proof fn conflicting_options_are_refused<T>(
    items: Seq<OptionArg>,
    seconds: T,
    time: spec_fn(Seq<u8>) -> Option<T>,
    ext: spec_fn(Seq<u8>) -> Option<Seq<u8>>,
)
    requires
        repeats(items) || (mentions(items, Flag::Output) && mentions(items, Flag::Still)) || (
        mentions(items, Flag::Time) && !mentions(items, Flag::Still)),
    ensures
        parse_spec(spell(items), seconds, time, ext) is Err,
{
    lemma_parse_spelled(items, seconds, time, ext);
    lemma_read_items_facts(items, defaults(seconds), Seen::none(), time);
    if let Ok((o, s2)) = read_items(items, defaults(seconds), Seen::none(), time) {
        assert(s2.has(Flag::Output) == mentions(items, Flag::Output));
        assert(s2.has(Flag::Still) == mentions(items, Flag::Still));
        assert(s2.has(Flag::Time) == mentions(items, Flag::Time));
    }
}

/// The same list with option `k` written the other way.
pub open spec fn respelled(items: Seq<OptionArg>, k: int) -> Seq<OptionArg> {
    items.update(k, OptionArg { inline: !items[k].inline, ..items[k] })
}

proof fn lemma_respelled_reads_alike<T>(
    items: Seq<OptionArg>,
    k: int,
    st: OptionsView<T>,
    seen: Seen,
    time: spec_fn(Seq<u8>) -> Option<T>,
)
    requires
        0 <= k < items.len(),
        valid_utf8(items[k].value),
    ensures
        read_items(respelled(items, k), st, seen, time) == read_items(items, st, seen, time),
    decreases items.len(),
{
    let other = respelled(items, k);
    if k == 0 {
        lemma_joined_text(items[0].flag, items[0].value);
        assert(read_item(st, seen, other[0], time) == read_item(st, seen, items[0], time));
        assert(other.drop_first() =~= items.drop_first());
    } else {
        assert(other[0] == items[0]);
        assert(other.drop_first() =~= respelled(items.drop_first(), k - 1));
        if let Ok((st2, seen2)) = read_item(st, seen, items[0], time) {
            lemma_respelled_reads_alike(items.drop_first(), k - 1, st2, seen2, time);
        }
    }
}

/// Wherever an option stands in a list, writing it as `--option=VALUE` or as
/// `--option VALUE` gives the same result, whenever the value is UTF-8 text.
pub proof fn option_spellings_agree<T>(
    items: Seq<OptionArg>,
    k: int,
    seconds: T,
    time: spec_fn(Seq<u8>) -> Option<T>,
    ext: spec_fn(Seq<u8>) -> Option<Seq<u8>>,
)
    requires
        0 <= k < items.len(),
        valid_utf8(items[k].value),
    ensures
        parse_spec(spell(respelled(items, k)), seconds, time, ext) == parse_spec(
            spell(items),
            seconds,
            time,
            ext,
        ),
{
    lemma_parse_spelled(items, seconds, time, ext);
    lemma_parse_spelled(respelled(items, k), seconds, time, ext);
    lemma_respelled_reads_alike(items, k, defaults(seconds), Seen::none(), time);
}

/// Reading options records exactly the options whose names were read, and
/// leaves every setting of an option not read as it was.
proof fn lemma_scan_tracks<T>(
    args: Seq<Seq<u8>>,
    i: int,
    st: OptionsView<T>,
    seen: Seen,
    time: spec_fn(Seq<u8>) -> Option<T>,
)
    requires
        0 <= i,
    ensures
        scan(args, i, st, seen, time) matches Ok((o, s2)) ==> {
            &&& forall|f: Flag| seen.has(f) ==> #[trigger] s2.has(f)
            &&& forall|f: Flag|
                #[trigger] s2.has(f) && !seen.has(f) ==> exists|j: int|
                    i <= j < args.len() && #[trigger] name_at(args, j) == flag_name(f)
            &&& !s2.fps ==> o.fps == st.fps
            &&& !s2.width ==> o.width == st.width
            &&& !s2.height ==> o.height == st.height
            &&& !s2.time ==> o.seconds == st.seconds
            &&& !s2.output && !s2.still ==> o.path == st.path && o.still == st.still
        },
    decreases args.len() - i,
{
    if i < args.len() && valid_utf8(args[i]) {
        let (name, inline) = split_name(args[i]);
        if let Some(flag) = flag_named(name) {
            if let Some((value, text, next)) = value_after(args, i, inline) {
                if let Ok(st2) = assign(st, flag, value, text, time) {
                    let seen2 = seen.with(flag);
                    lemma_scan_tracks(args, next, st2, seen2, time);
                    if let Ok((o, s2)) = scan(args, next, st2, seen2, time) {
                        assert(name_at(args, i) == flag_name(flag));
                        assert forall|f: Flag| #[trigger] s2.has(f) && !seen.has(f) implies exists|
                            j: int,
                        | i <= j < args.len() && #[trigger] name_at(args, j) == flag_name(f) by {
                            if f == flag {
                                assert(name_at(args, i) == flag_name(f));
                            } else {
                                assert(!seen2.has(f));
                            }
                        }
                        assert(seen2.has(flag));
                        assert forall|f: Flag| seen.has(f) implies #[trigger] s2.has(f) by {
                            assert(seen2.has(f));
                        }
                        assert(s2.has(flag));
                        assert(s2.has(Flag::Fps) == s2.fps && s2.has(Flag::Width) == s2.width
                            && s2.has(Flag::Height) == s2.height && s2.has(Flag::Time) == s2.time
                            && s2.has(Flag::Output) == s2.output && s2.has(Flag::Still)
                            == s2.still);
                        if !s2.fps {
                            assert(flag != Flag::Fps);
                            assert(st2.fps == st.fps);
                        }
                        if !s2.width {
                            assert(flag != Flag::Width);
                            assert(st2.width == st.width);
                        }
                        if !s2.height {
                            assert(flag != Flag::Height);
                            assert(st2.height == st.height);
                        }
                        if !s2.time {
                            assert(flag != Flag::Time);
                            assert(st2.seconds == st.seconds);
                        }
                        if !s2.output && !s2.still {
                            assert(flag != Flag::Output && flag != Flag::Still);
                            assert(st2.path == st.path && st2.still == st.still);
                        }
                    }
                }
            }
        }
    }
}

/// A granted render request keeps the default of every option that no
/// argument names, and its time is the default unless it is a still.
pub proof fn absent_options_keep_defaults<T>(
    args: Seq<Seq<u8>>,
    seconds: T,
    time: spec_fn(Seq<u8>) -> Option<T>,
    ext: spec_fn(Seq<u8>) -> Option<Seq<u8>>,
)
    ensures
        parse_spec(args, seconds, time, ext) matches Ok(RequestView::Render(o)) ==> {
            &&& !names_option(args, Flag::Fps) ==> o.fps == 30
            &&& !names_option(args, Flag::Width) ==> o.width == 1920
            &&& !names_option(args, Flag::Height) ==> o.height == 1080
            &&& !names_option(args, Flag::Time) ==> o.seconds == seconds
            &&& !o.still ==> o.seconds == seconds
            &&& (!names_option(args, Flag::Output) && !names_option(args, Flag::Still)) ==> (o.path
                == default_path() && !o.still)
        },
{
    lemma_scan_tracks(args, 0, defaults(seconds), Seen::none(), time);
    if let Ok((st, s2)) = scan(args, 0, defaults(seconds), Seen::none(), time) {
        assert forall|f: Flag| #[trigger] s2.has(f) implies names_option(args, f) by {
            assert(!Seen::none().has(f));
            let j = choose|j: int| 0 <= j < args.len() && #[trigger] name_at(args, j) == flag_name(f);
            assert(name_at(args, j) == flag_name(f));
        }
        assert(s2.has(Flag::Fps) == s2.fps);
        assert(s2.has(Flag::Width) == s2.width);
        assert(s2.has(Flag::Height) == s2.height);
        assert(s2.has(Flag::Time) == s2.time);
        assert(s2.has(Flag::Output) == s2.output);
        assert(s2.has(Flag::Still) == s2.still);
    }
}

/// `items2` is `items1` in another order: its `i`-th option is option `p[i]`
/// of `items1`, and `p` takes each index of `items1` exactly once.
pub open spec fn is_reordering(items2: Seq<OptionArg>, items1: Seq<OptionArg>, p: Seq<int>) -> bool {
    &&& items2.len() == items1.len()
    &&& p.len() == items1.len()
    &&& forall|i: int|
        0 <= i < p.len() ==> 0 <= #[trigger] p[i] < items1.len() && items2[i] == items1[p[i]]
    &&& forall|i: int, j: int| 0 <= i < j < p.len() ==> #[trigger] p[i] != #[trigger] p[j]
    &&& forall|k: int|
        #![trigger items1[k]]
        0 <= k < items1.len() ==> exists|i: int| 0 <= i < p.len() && #[trigger] p[i] == k
}

/// The number an integer option's value gives.
pub open spec fn number_of(a: OptionArg) -> u32 {
    match within(a.value, a.flag) {
        Some(n) => n,
        None => 0,
    }
}

/// A list with no option repeated, none given before, and each readable, is read.
proof fn lemma_read_items_succeeds<T>(
    items: Seq<OptionArg>,
    st: OptionsView<T>,
    seen: Seen,
    time: spec_fn(Seq<u8>) -> Option<T>,
)
    requires
        !repeats(items),
        forall|i: int|
            0 <= i < items.len() ==> !seen.has(#[trigger] items[i].flag) && item_ok(items[i], time),
    ensures
        read_items(items, st, seen, time) is Ok,
    decreases items.len(),
{
    if items.len() > 0 {
        let a = items[0];
        let rest = items.drop_first();
        assert(!seen.has(a.flag) && item_ok(a, time));
        let st2 = assign(st, a.flag, a.value, text_value(a), time)->Ok_0;
        let seen2 = seen.with(a.flag);
        assert(read_item(st, seen, a, time) == Ok::<(OptionsView<T>, Seen), ArgErrorView>(
            (st2, seen2),
        ));
        assert(!repeats(rest)) by {
            if repeats(rest) {
                let (i, j) = choose|i: int, j: int|
                    0 <= i < j < rest.len() && #[trigger] rest[i].flag == #[trigger] rest[j].flag;
                assert(items[i + 1].flag == items[j + 1].flag);
            }
        }
        assert forall|i: int| 0 <= i < rest.len() implies !seen2.has(#[trigger] rest[i].flag)
            && item_ok(rest[i], time) by {
            assert(rest[i] == items[i + 1]);
            assert(items[0].flag != items[i + 1].flag);
        }
        lemma_read_items_succeeds(rest, st2, seen2, time);
    }
}

/// After reading a list, each setting is the one its option gave, or as it
/// was where the option is not given; `--output` and `--still` settle the
/// file and the kind of export when at most one of them is given.
proof fn lemma_read_items_fields<T>(
    items: Seq<OptionArg>,
    st: OptionsView<T>,
    seen: Seen,
    time: spec_fn(Seq<u8>) -> Option<T>,
)
    ensures
        read_items(items, st, seen, time) matches Ok((o, s2)) ==> {
            &&& forall|i: int|
                #![trigger items[i]]
                0 <= i < items.len() ==> {
                    &&& items[i].flag == Flag::Fps ==> o.fps == number_of(items[i])
                    &&& items[i].flag == Flag::Width ==> o.width == number_of(items[i])
                    &&& items[i].flag == Flag::Height ==> o.height == number_of(items[i])
                    &&& items[i].flag == Flag::Time ==> time(items[i].value) == Some(o.seconds)
                }
            &&& !mentions(items, Flag::Fps) ==> o.fps == st.fps
            &&& !mentions(items, Flag::Width) ==> o.width == st.width
            &&& !mentions(items, Flag::Height) ==> o.height == st.height
            &&& !mentions(items, Flag::Time) ==> o.seconds == st.seconds
            &&& !(mentions(items, Flag::Output) && mentions(items, Flag::Still)) ==> {
                &&& forall|i: int|
                    #![trigger items[i]]
                    0 <= i < items.len() && items[i].flag == Flag::Output ==> o.path
                        == items[i].value && !o.still
                &&& forall|i: int|
                    #![trigger items[i]]
                    0 <= i < items.len() && items[i].flag == Flag::Still ==> o.path
                        == items[i].value && o.still
                &&& (!mentions(items, Flag::Output) && !mentions(items, Flag::Still)) ==> (o.path
                    == st.path && o.still == st.still)
            }
        },
    decreases items.len(),
{
    if items.len() > 0 {
        let a = items[0];
        let rest = items.drop_first();
        lemma_read_items_facts(items, st, seen, time);
        if let Ok((st2, seen2)) = read_item(st, seen, a, time) {
            lemma_read_items_fields(rest, st2, seen2, time);
            if let Ok((o, s2)) = read_items(rest, st2, seen2, time) {
                lemma_mentions_first(items, Flag::Fps);
                lemma_mentions_first(items, Flag::Width);
                lemma_mentions_first(items, Flag::Height);
                lemma_mentions_first(items, Flag::Time);
                lemma_mentions_first(items, Flag::Output);
                lemma_mentions_first(items, Flag::Still);
                // The first option is not given again later.
                assert forall|f: Flag| f == a.flag implies !mentions(rest, f) by {
                    if mentions(rest, f) {
                        let j = choose|j: int| 0 <= j < rest.len() && #[trigger] rest[j].flag == f;
                        assert(items[j + 1].flag == items[0].flag);
                    }
                }
                assert forall|i: int| 0 < i < items.len() implies #[trigger] items[i] == rest[i
                    - 1] by {}
            }
        }
    }
}

/// The order in which options are written does not matter: a list that is
/// granted gives the same result written in any other order.
pub proof fn option_order_does_not_matter<T>(
    items1: Seq<OptionArg>,
    items2: Seq<OptionArg>,
    p: Seq<int>,
    seconds: T,
    time: spec_fn(Seq<u8>) -> Option<T>,
    ext: spec_fn(Seq<u8>) -> Option<Seq<u8>>,
)
    requires
        is_reordering(items2, items1, p),
        parse_spec(spell(items1), seconds, time, ext) is Ok,
    ensures
        parse_spec(spell(items2), seconds, time, ext) == parse_spec(spell(items1), seconds, time, ext),
{
    let st = defaults(seconds);
    let none = Seen::none();
    lemma_parse_spelled(items1, seconds, time, ext);
    lemma_parse_spelled(items2, seconds, time, ext);
    lemma_read_items_facts(items1, st, none, time);
    let (o1, s1) = read_items(items1, st, none, time)->Ok_0;
    // Each option of one list is an option of the other.
    assert forall|f: Flag| #[trigger] mentions(items2, f) == mentions(items1, f) by {
        if mentions(items2, f) {
            let i = choose|i: int| 0 <= i < items2.len() && #[trigger] items2[i].flag == f;
            assert(items1[p[i]].flag == f);
        }
        if mentions(items1, f) {
            let k = choose|k: int| 0 <= k < items1.len() && #[trigger] items1[k].flag == f;
            let i = choose|i: int| 0 <= i < p.len() && #[trigger] p[i] == k;
            assert(items2[i].flag == f);
        }
    }
    assert(!repeats(items2)) by {
        if repeats(items2) {
            let (i, j) = choose|i: int, j: int|
                0 <= i < j < items2.len() && #[trigger] items2[i].flag == #[trigger] items2[j].flag;
            assert(p[i] != p[j]);
            if p[i] < p[j] {
                assert(items1[p[i]].flag == items1[p[j]].flag);
            } else {
                assert(items1[p[j]].flag == items1[p[i]].flag);
            }
        }
    }
    assert forall|i: int| 0 <= i < items2.len() implies !none.has(#[trigger] items2[i].flag)
        && item_ok(items2[i], time) by {
        assert(items2[i] == items1[p[i]]);
    }
    lemma_read_items_succeeds(items2, st, none, time);
    lemma_read_items_facts(items2, st, none, time);
    let (o2, s2) = read_items(items2, st, none, time)->Ok_0;
    assert(s1 == s2) by {
        assert(s1.has(Flag::Output) == s2.has(Flag::Output));
        assert(s1.has(Flag::Still) == s2.has(Flag::Still));
        assert(s1.has(Flag::Time) == s2.has(Flag::Time));
        assert(s1.has(Flag::Fps) == s2.has(Flag::Fps));
        assert(s1.has(Flag::Width) == s2.has(Flag::Width));
        assert(s1.has(Flag::Height) == s2.has(Flag::Height));
    }
    // A granted list does not give both --output and --still.
    assert(!(s1.output && s1.still));
    assert(!(mentions(items1, Flag::Output) && mentions(items1, Flag::Still))) by {
        assert(s1.has(Flag::Output) == mentions(items1, Flag::Output));
        assert(s1.has(Flag::Still) == mentions(items1, Flag::Still));
    }
    lemma_read_items_fields(items1, st, none, time);
    lemma_read_items_fields(items2, st, none, time);
    // Each setting comes from the same option in both lists.
    assert forall|f: Flag| mentions(items1, f) implies exists|i: int|
        0 <= i < items2.len() && #[trigger] items2[i].flag == f && items1[p[i]] == items2[i] by {
        let k = choose|k: int| 0 <= k < items1.len() && #[trigger] items1[k].flag == f;
        let i = choose|i: int| 0 <= i < p.len() && #[trigger] p[i] == k;
        assert(items2[i].flag == f);
    }
    assert(o1.fps == o2.fps) by {
        if mentions(items1, Flag::Fps) {
            let i = choose|i: int|
                0 <= i < items2.len() && #[trigger] items2[i].flag == Flag::Fps && items1[p[i]]
                    == items2[i];
            assert(items1[p[i]] == items2[i]);
        }
    }
    assert(o1.width == o2.width) by {
        if mentions(items1, Flag::Width) {
            let i = choose|i: int|
                0 <= i < items2.len() && #[trigger] items2[i].flag == Flag::Width && items1[p[i]]
                    == items2[i];
            assert(items1[p[i]] == items2[i]);
        }
    }
    assert(o1.height == o2.height) by {
        if mentions(items1, Flag::Height) {
            let i = choose|i: int|
                0 <= i < items2.len() && #[trigger] items2[i].flag == Flag::Height && items1[p[i]]
                    == items2[i];
            assert(items1[p[i]] == items2[i]);
        }
    }
    assert(o1.seconds == o2.seconds) by {
        if mentions(items1, Flag::Time) {
            let i = choose|i: int|
                0 <= i < items2.len() && #[trigger] items2[i].flag == Flag::Time && items1[p[i]]
                    == items2[i];
            assert(items1[p[i]] == items2[i]);
        }
    }
    assert(o1.path == o2.path && o1.still == o2.still) by {
        if mentions(items1, Flag::Output) {
            let i = choose|i: int|
                0 <= i < items2.len() && #[trigger] items2[i].flag == Flag::Output && items1[p[i]]
                    == items2[i];
            assert(items1[p[i]] == items2[i]);
        } else if mentions(items1, Flag::Still) {
            let i = choose|i: int|
                0 <= i < items2.len() && #[trigger] items2[i].flag == Flag::Still && items1[p[i]]
                    == items2[i];
            assert(items1[p[i]] == items2[i]);
        }
    }
    assert(o1 == o2);
}

/// The decimal digits of `n`, without leading zeros.
pub open spec fn decimal(n: nat) -> Seq<u8>
    decreases n,
{
    if n < 10 {
        seq![(48 + n) as u8]
    } else {
        decimal(n / 10).push((48 + n % 10) as u8)
    }
}

proof fn lemma_decimal(n: nat)
    ensures
        decimal(n).len() > 0,
        all_digits(decimal(n)),
        digits_value(decimal(n)) == n,
    decreases n,
{
    if n >= 10 {
        let s = decimal(n / 10);
        lemma_decimal(n / 10);
        let t = decimal(n);
        assert(t.drop_last() =~= s);
        assert forall|i: int| 0 <= i < t.len() implies is_digit(#[trigger] t[i]) by {
            if i < s.len() {
                assert(t[i] == s[i]);
            }
        }
        assert(t.last() == (48 + n % 10) as u8);
        assert(digits_value(t) == digits_value(s) * 10 + n % 10);
    } else {
        let t = decimal(n);
        assert(t.drop_last() =~= Seq::<u8>::empty());
        assert(digits_value(t.drop_last()) == 0);
        assert(is_digit(t[0]));
    }
}

/// Every allowed number is granted as given: `--fps N` for each N from 12 to
/// 60, `--width N` for each even N from 640 to 3840, and `--height N` for
/// each even N from 360 to 2160 give a 1920x1080 (or as given), 30 fps (or as
/// given) video to `homogeneous-coordinates.mp4` with the default time,
/// wherever that default file's extension is read as `mp4`.
pub proof fn allowed_numbers_are_granted<T>(
    flag: Flag,
    n: nat,
    seconds: T,
    time: spec_fn(Seq<u8>) -> Option<T>,
    ext: spec_fn(Seq<u8>) -> Option<Seq<u8>>,
)
    requires
        (flag == Flag::Fps && 12 <= n <= 60) || (flag == Flag::Width && 640 <= n <= 3840 && n % 2
            == 0) || (flag == Flag::Height && 360 <= n <= 2160 && n % 2 == 0),
        ext(
            seq![
                104u8, 111, 109, 111, 103, 101, 110, 101, 111, 117, 115, 45, 99, 111, 111, 114,
                100, 105, 110, 97, 116, 101, 115, 46, 109, 112, 52,
            ],
        ) == Some(seq![109u8, 112, 52]),
    ensures
        parse_spec(seq![flag_name(flag), decimal(n)], seconds, time, ext) == Ok::<
            RequestView<T>,
            ArgErrorView,
        >(
            RequestView::Render(
                OptionsView {
                    path: seq![
                        104u8, 111, 109, 111, 103, 101, 110, 101, 111, 117, 115, 45, 99, 111, 111,
                        114, 100, 105, 110, 97, 116, 101, 115, 46, 109, 112, 52,
                    ],
                    still: false,
                    seconds: seconds,
                    fps: if flag == Flag::Fps { n as u32 } else { 30 },
                    width: if flag == Flag::Width { n as u32 } else { 1920 },
                    height: if flag == Flag::Height { n as u32 } else { 1080 },
                },
            ),
        ),
{
    let items = seq![OptionArg { flag: flag, value: decimal(n), inline: false }];
    let args = seq![flag_name(flag), decimal(n)];
    assert(spell(items) =~= args) by {
        assert(spell(items.drop_first()) =~= Seq::<Seq<u8>>::empty());
    }
    lemma_parse_spelled(items, seconds, time, ext);
    lemma_decimal(n);
    let v = decimal(n);
    assert(v[0] != crate::decimal::PLUS) by {
        assert(is_digit(v[0]));
    }
    assert(decimal_u32(v) == Some(n as u32));
    assert(!starts_with_dashes(v)) by {
        assert(is_digit(v[0]));
    }
    assert(valid_utf8(v)) by {
        assert forall|i: int| 0 <= i < v.len() implies #[trigger] v[i] < 128 by {
            assert(is_digit(v[i]));
        }
        lemma_ascii_is_text(v);
    }
    let st = defaults(seconds);
    assert(read_item(st, Seen::none(), items[0], time) is Ok);
    let (o, seen) = read_item(st, Seen::none(), items[0], time)->Ok_0;
    assert(read_items(items, st, Seen::none(), time) == read_items(
        items.drop_first(),
        o,
        seen,
        time,
    ));
    assert(items.drop_first().len() == 0);
    assert(o.path =~= seq![
        104u8, 111, 109, 111, 103, 101, 110, 101, 111, 117, 115, 45, 99, 111, 111, 114, 100,
        105, 110, 97, 116, 101, 115, 46, 109, 112, 52,
    ]);
    assert(read_items(items, st, Seen::none(), time) == Ok::<(OptionsView<T>, Seen), ArgErrorView>(
        (o, seen),
    ));
    assert(crate::cli::extension_fits(ext, o.path, false));
    assert(!(seen.output && seen.still) && !seen.time && !o.still);
    assert(finish_spec(o, seen, ext) == Ok::<RequestView<T>, ArgErrorView>(RequestView::Render(o)));
    assert(o.fps == if flag == Flag::Fps { n as u32 } else { 30 });
    assert(o.width == if flag == Flag::Width { n as u32 } else { 1920 });
    assert(o.height == if flag == Flag::Height { n as u32 } else { 1080 });
    assert(o.seconds == seconds);
    let expected = OptionsView {
        path: seq![
            104u8, 111, 109, 111, 103, 101, 110, 101, 111, 117, 115, 45, 99, 111, 111, 114, 100,
            105, 110, 97, 116, 101, 115, 46, 109, 112, 52,
        ],
        still: false,
        seconds: seconds,
        fps: if flag == Flag::Fps { n as u32 } else { 30 },
        width: if flag == Flag::Width { n as u32 } else { 1920 },
        height: if flag == Flag::Height { n as u32 } else { 1080 },
    };
    assert(o == expected);
    assert(parse_spec(spell(items), seconds, time, ext) == Ok::<RequestView<T>, ArgErrorView>(
        RequestView::Render(expected),
    ));
}

} // verus!

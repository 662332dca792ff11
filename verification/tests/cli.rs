use one_dimension_up::cli::{parse, same_ignoring_case, ArgError, Flag, Options, Request};
use one_dimension_up::decimal::read_u32;

const DURATION: f32 = 42.5;

fn read_time(value: &[u8]) -> Option<f32> {
    std::str::from_utf8(value)
        .ok()
        .and_then(|s| s.parse::<f32>().ok())
        .filter(|s| s.is_finite() && *s >= 0. && *s < DURATION)
}

fn read_extension(path: &[u8]) -> Option<Vec<u8>> {
    let text = String::from_utf8_lossy(path);
    std::path::Path::new(&*text)
        .extension()
        .and_then(|e| e.to_str())
        .map(|e| e.as_bytes().to_vec())
}

fn args(values: &[&str]) -> Result<Request<f32>, ArgError> {
    let raw: Vec<Vec<u8>> = values.iter().map(|v| v.as_bytes().to_vec()).collect();
    parse(&raw, 0., read_time, read_extension)
}

fn raw_args(values: &[&[u8]]) -> Result<Request<f32>, ArgError> {
    let raw: Vec<Vec<u8>> = values.iter().map(|v| v.to_vec()).collect();
    parse(&raw, 0., read_time, read_extension)
}

#[test]
fn defaults_and_valid_overrides() {
    assert_eq!(
        args(&[]),
        Ok(Request::Render(Options {
            path: b"homogeneous-coordinates.mp4".to_vec(),
            still: false,
            seconds: 0.,
            fps: 30,
            width: 1920,
            height: 1080,
        }))
    );
    assert_eq!(
        args(&[
            "--still=frame.png",
            "--time",
            "16.8",
            "--fps=60",
            "--width",
            "3840",
            "--height=2160"
        ]),
        Ok(Request::Render(Options {
            path: b"frame.png".to_vec(),
            still: true,
            seconds: 16.8,
            fps: 60,
            width: 3840,
            height: 2160
        }))
    );
}

#[test]
fn invalid_numbers_are_rejected_instead_of_changed() {
    for pair in [
        ["--fps", "abc"],
        ["--fps", "11"],
        ["--fps", "61"],
        ["--width", "641"],
        ["--width", "4000"],
        ["--height", "0"],
        ["--height", "361"],
    ] {
        assert!(args(&pair).is_err(), "{pair:?}");
    }
    for value in ["NaN", "inf", "-1", "42.5", "not-a-number"] {
        assert!(args(&["--still", "frame.png", "--time", value]).is_err());
    }
}

#[test]
fn malformed_arguments_and_conflicts_are_rejected() {
    for values in [
        vec!["--bogus"],
        vec!["movie.mp4"],
        vec!["--width"],
        vec!["--width="],
        vec!["--output", "--fps", "30"],
        vec!["--fps", "30", "--fps", "60"],
        vec!["--still", "a.png", "--output", "b.mp4"],
        vec!["--output", "a.mp4", "--still", "b.png"],
        vec!["--time", "1"],
        vec!["--still", "a.mp4"],
        vec!["--output", "a.png"],
        vec!["--help", "--bogus"],
    ] {
        assert!(args(&values).is_err(), "{values:?}");
    }
}

#[test]
fn informational_commands_need_no_renderer() {
    assert_eq!(args(&["-h"]), Ok(Request::Help));
    assert_eq!(args(&["--help"]), Ok(Request::Help));
    assert_eq!(args(&["-V"]), Ok(Request::Version));
    assert_eq!(args(&["--version"]), Ok(Request::Version));
}

#[test]
fn each_refusal_names_its_reason() {
    assert_eq!(raw_args(&[b"--fps=\xff"]), Err(ArgError::NotText));
    assert_eq!(raw_args(&[b"\xff"]), Err(ArgError::NotText));
    assert_eq!(args(&["--help", "--bogus"]), Err(ArgError::NotAlone(b"--help".to_vec())));
    assert_eq!(args(&["-V=1"]), Err(ArgError::NotAlone(b"-V".to_vec())));
    assert_eq!(args(&["--bogus=1"]), Err(ArgError::Unknown(b"--bogus".to_vec())));
    assert_eq!(args(&["movie.mp4"]), Err(ArgError::Unknown(b"movie.mp4".to_vec())));
    assert_eq!(args(&["--fps", "30", "--fps", "60"]), Err(ArgError::Repeated(Flag::Fps)));
    assert_eq!(args(&["--width"]), Err(ArgError::MissingValue(Flag::Width)));
    assert_eq!(args(&["--width="]), Err(ArgError::MissingValue(Flag::Width)));
    assert_eq!(args(&["--output", "--fps", "30"]), Err(ArgError::MissingValue(Flag::Output)));
    assert_eq!(args(&["--still", "a.png", "--time", "inf"]), Err(ArgError::InvalidTime));
    assert_eq!(args(&["--height", "361"]), Err(ArgError::InvalidInteger(Flag::Height)));
    assert_eq!(
        args(&["--still", "a.png", "--output", "b.mp4"]),
        Err(ArgError::OutputWithStill)
    );
    assert_eq!(args(&["--time", "1"]), Err(ArgError::TimeWithoutStill));
    assert_eq!(args(&["--still", "a.mp4"]), Err(ArgError::WrongExtension { still: true }));
    assert_eq!(args(&["--output", "a.png"]), Err(ArgError::WrongExtension { still: false }));
}

#[test]
fn the_first_refused_argument_decides() {
    // The bad time is met before the unknown argument.
    assert_eq!(
        args(&["--still", "a.png", "--time", "99", "--bogus"]),
        Err(ArgError::InvalidTime)
    );
    // A repeated option is refused before its value is looked at.
    assert_eq!(args(&["--fps", "30", "--fps"]), Err(ArgError::Repeated(Flag::Fps)));
}

#[test]
fn paths_need_not_be_utf8_but_values_read_as_numbers_must() {
    let request = raw_args(&[b"--output", b"out-\xff.mp4"]);
    assert_eq!(
        request,
        Ok(Request::Render(Options {
            path: b"out-\xff.mp4".to_vec(),
            still: false,
            seconds: 0.,
            fps: 30,
            width: 1920,
            height: 1080,
        }))
    );
    // A non-UTF-8 value is not taken for an option even when it starts with "--".
    assert!(matches!(raw_args(&[b"--output", b"--\xff.mp4"]), Ok(Request::Render(_))));
    assert_eq!(
        raw_args(&[b"--still", b"a.png", b"--time", b"1\xff"]),
        Err(ArgError::InvalidTime)
    );
}

#[test]
fn the_time_reader_only_sees_time_values() {
    let seen = std::cell::RefCell::new(Vec::new());
    let raw: Vec<Vec<u8>> = ["--fps", "24", "--still", "x.png", "--time=3.5", "--width", "640"]
        .iter()
        .map(|v| v.as_bytes().to_vec())
        .collect();
    let r = parse(
        &raw,
        0u32,
        |v: &[u8]| {
            seen.borrow_mut().push(v.to_vec());
            Some(7u32)
        },
        read_extension,
    );
    assert_eq!(seen.borrow().clone(), vec![b"3.5".to_vec()]);
    assert_eq!(
        r,
        Ok(Request::Render(Options {
            path: b"x.png".to_vec(),
            still: true,
            seconds: 7,
            fps: 24,
            width: 640,
            height: 1080,
        }))
    );
}

#[test]
fn extensions_follow_the_file_name() {
    for still in ["a.png", "dir.x/A.PnG", "out/a.png/", "out/a.png/./", "a.b.png", "x/..png"] {
        assert!(args(&["--still", still]).is_ok(), "{still}");
    }
    for still in [".png", "a.png/..", "png", "a.png.bak", "a.pngx", "/", "a.mp4"] {
        assert_eq!(
            args(&["--still", still]),
            Err(ArgError::WrongExtension { still: true }),
            "{still}"
        );
    }
    assert!(same_ignoring_case(b"PnG", b"png"));
    assert!(!same_ignoring_case(b"pn", b"png"));
    assert!(!same_ignoring_case(b"p\xc3g", b"png"));
}

#[test]
fn the_extension_reader_decides_the_file_name() {
    // A reader for a platform where `\` also separates components.
    let windows_like = |path: &[u8]| {
        let name = path.rsplit(|b| *b == b'/' || *b == b'\\').next().unwrap_or(path);
        match name.iter().rposition(|b| *b == b'.') {
            Some(0) | None => None,
            Some(d) => Some(name[d + 1..].to_vec()),
        }
    };
    let raw: Vec<Vec<u8>> = ["--still", "x\\.png"].iter().map(|v| v.as_bytes().to_vec()).collect();
    assert_eq!(
        parse(&raw, 0., read_time, windows_like),
        Err(ArgError::WrongExtension { still: true })
    );
    assert!(parse(&raw, 0., read_time, read_extension).is_ok());
}

#[test]
fn integers_are_read_like_str_parse() {
    assert_eq!(read_u32(b"60"), Some(60));
    assert_eq!(read_u32(b"+60"), Some(60));
    assert_eq!(read_u32(b"0060"), Some(60));
    assert_eq!(read_u32(b"4294967295"), Some(4294967295));
    assert_eq!(read_u32(b"4294967296"), None);
    assert_eq!(read_u32(b"99999999999999999999x"), None);
    assert_eq!(read_u32(b"-1"), None);
    assert_eq!(read_u32(b"+"), None);
    assert_eq!(read_u32(b""), None);
    assert_eq!(read_u32(b"1 "), None);
    assert!(args(&["--fps", "+12", "--width", "0640", "--height", "360"]).is_ok());
}

#[test]
fn inline_and_separate_values_read_alike() {
    let pairs: [(&[&str], &[&str]); 4] = [
        (&["--fps=60", "--width", "640"], &["--fps", "60", "--width", "640"]),
        (&["--still=a.png", "--time=2.5"], &["--still", "a.png", "--time", "2.5"]),
        (&["--height=361"], &["--height", "361"]),
        (&["--output=x=y.mp4"], &["--output", "x=y.mp4"]),
    ];
    for (inline, separate) in pairs {
        assert_eq!(args(inline), args(separate), "{inline:?}");
    }
    assert_eq!(args(&["--width=", "640"]), Err(ArgError::MissingValue(Flag::Width)));
}

#[test]
fn option_order_and_absent_defaults() {
    let a = args(&["--fps=24", "--still", "a.png", "--time", "3", "--height=720"]);
    let b = args(&["--height", "720", "--time=3", "--still=a.png", "--fps", "24"]);
    assert_eq!(a, b);
    assert_eq!(
        a,
        Ok(Request::Render(Options {
            path: b"a.png".to_vec(),
            still: true,
            seconds: 3.,
            fps: 24,
            width: 1920,
            height: 720,
        }))
    );
    for values in [
        vec!["--time=1", "--output", "a.mp4"],
        vec!["--width=640", "--output=a.mp4", "--width", "640"],
        vec!["--still=a.png", "--fps", "30", "--output", "a.mp4"],
    ] {
        assert!(args(&values).is_err(), "{values:?}");
    }
}

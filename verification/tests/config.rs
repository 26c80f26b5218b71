use clove_core::config::{
    parse_seed_ratio, Config, Defaults, Environment, Error, Problem, DEFAULT_MAX_ACTIVE_DOWNLOADS,
    DEFAULT_MAX_ACTIVE_SEEDS, DEFAULT_PEER_LIMIT, DEFAULT_SAM_ADDRESS, DEFAULT_TORRENT_PEER_LIMIT,
    MAX_PEER_LIMIT,
};

fn defaults() -> Defaults {
    Defaults {
        data_home: "/home/u/.local/share".to_owned(),
        runtime_dir: Some("/run/user/1000".to_owned()),
        config_home: "/home/u/.config".to_owned(),
    }
}

#[test]
fn empty_config_is_the_working_default() {
    let c = Config::parse("", &defaults()).unwrap();
    assert_eq!(c.sam_address, DEFAULT_SAM_ADDRESS);
    assert!(!c.i_know_sam_is_remote);
    assert!(!c.ephemeral);
    // Sparse by default: preallocation costs the full size at add time, which
    // is a deviation an operator opts into, not basic function.
    assert!(!c.preallocate);
    assert_eq!(c.peer_limit, DEFAULT_PEER_LIMIT);
    assert_eq!(c.torrent_peer_limit, DEFAULT_TORRENT_PEER_LIMIT);
    assert_eq!(c.max_active_downloads, DEFAULT_MAX_ACTIVE_DOWNLOADS);
    assert_eq!(c.max_active_seeds, DEFAULT_MAX_ACTIVE_SEEDS);
    // Seeding without limit is the default: stopping is a deviation an
    // operator opts into.
    assert_eq!(c.seed_ratio_milli, 0);
    assert_eq!(c.seed_idle_minutes, 0);
    assert_eq!(c.watch_dir, None);
    assert_eq!(c.data_dir, "/home/u/.local/share/clove");
    // In a subdirectory of its own, so that a grant covering the socket's
    // parent does not cover the whole runtime directory.
    assert_eq!(c.api_socket, "/run/user/1000/clove/clove.sock");
}

#[test]
fn default_config_path_is_xdg() {
    assert_eq!(defaults().config_path(), "/home/u/.config/clove/clove.conf");
}

#[test]
fn api_socket_falls_back_to_data_dir() {
    let d = Defaults { runtime_dir: None, ..defaults() };
    let c = Config::parse("", &d).unwrap();
    assert_eq!(c.api_socket, "/home/u/.local/share/clove/clove.sock");
}

#[test]
fn parses_a_full_config() {
    let text = "\
# clove.conf
sam_address\t127.0.0.1:7657

data_dir /srv/clove
api_socket /run/clove.sock
ephemeral yes
preallocate yes
";
    let c = Config::parse(text, &defaults()).unwrap();
    assert_eq!(c.sam_address, "127.0.0.1:7657");
    assert_eq!(c.data_dir, "/srv/clove");
    assert_eq!(c.api_socket, "/run/clove.sock");
    assert!(c.ephemeral);
    assert!(c.preallocate);
}

#[test]
fn peer_ceilings_are_counts_with_a_refused_zero() {
    let d = defaults();
    let c = Config::parse("peer_limit 120\ntorrent_peer_limit 30\n", &d).unwrap();
    assert_eq!(c.peer_limit, 120);
    assert_eq!(c.torrent_peer_limit, 30);
    assert_eq!(Config::parse("peer_limit 1\n", &d).unwrap().peer_limit, 1);
    assert_eq!(
        Config::parse(&format!("peer_limit {MAX_PEER_LIMIT}\n"), &d).unwrap().peer_limit,
        MAX_PEER_LIMIT
    );

    // Zero is not "unlimited" (a client that may hold no peers is never what
    // was meant) and a slipped keystroke fails the start rather than being
    // discovered later as a wedged session.
    for bad in [
        "peer_limit 0",
        "peer_limit -1",
        "peer_limit 1.5",
        "peer_limit lots",
        "peer_limit 10001",
        "torrent_peer_limit 0",
        "torrent_peer_limit 99999999999999999999",
    ] {
        match Config::parse(bad, &d) {
            Err(Error::Line { problem, .. }) => {
                assert_eq!(problem, Problem::BadCount, "{bad}");
            }
            other => panic!("{bad}: expected BadCount, got {other:?}"),
        }
    }
}

#[test]
fn a_ratio_is_read_exactly_as_written() {
    let d = defaults();
    let ratio = |text: &str| Config::parse(text, &d).map(|c| c.seed_ratio_milli);
    assert_eq!(ratio("seed_ratio 2\n").unwrap(), 2000);
    assert_eq!(ratio("seed_ratio 1.5\n").unwrap(), 1500);
    assert_eq!(ratio("seed_ratio 0.25\n").unwrap(), 250);
    assert_eq!(ratio("seed_ratio 0.001\n").unwrap(), 1);
    // A bare fraction, and a trailing dot, both mean what they look like.
    assert_eq!(ratio("seed_ratio .5\n").unwrap(), 500);
    assert_eq!(ratio("seed_ratio 3.\n").unwrap(), 3000);
    // Zero is "seed without limit", the default, and is spelled the same way
    // the config omits the key.
    assert_eq!(ratio("seed_ratio 0\n").unwrap(), 0);
    // The fraction is padded, not parsed as an integer: `1.5` is 1500
    // thousandths and not 1005.
    assert_ne!(ratio("seed_ratio 1.5\n").unwrap(), 1005);

    for bad in [
        "seed_ratio -1",
        "seed_ratio 1.2345",
        "seed_ratio two",
        "seed_ratio 1.5.2",
        "seed_ratio .",
        "seed_ratio 1e3",
        "seed_ratio 1000001",
    ] {
        match Config::parse(bad, &d) {
            Err(Error::Line { problem, .. }) => {
                assert_eq!(problem, Problem::BadRatio, "{bad}");
            }
            other => panic!("{bad}: expected BadRatio, got {other:?}"),
        }
    }

    let idle = |text: &str| Config::parse(text, &d).map(|c| c.seed_idle_minutes);
    assert_eq!(idle("seed_idle_minutes 30\n").unwrap(), 30);
    // Zero means never, so unlike a peer limit it is accepted.
    assert_eq!(idle("seed_idle_minutes 0\n").unwrap(), 0);
    assert!(idle("seed_idle_minutes -5\n").is_err());
    assert!(idle("seed_idle_minutes soon\n").is_err());
}

#[test]
fn preallocate_is_a_bool_like_every_other_flag() {
    let d = defaults();
    assert!(Config::parse("preallocate yes\n", &d).unwrap().preallocate);
    assert!(!Config::parse("preallocate no\n", &d).unwrap().preallocate);
}

#[test]
fn unknown_key_is_fatal_with_line_number() {
    let err = Config::parse("\n\nsam_adress 127.0.0.1:7656\n", &defaults()).unwrap_err();
    assert_eq!(
        err,
        Error::Line { line: 3, problem: Problem::UnknownKey("sam_adress".into()) }
    );
}

#[test]
fn rejects_line_problems() {
    let d = defaults();
    let cases: Vec<(&str, Problem)> = vec![
        ("ephemeral", Problem::MissingValue),
        ("ephemeral \t", Problem::MissingValue),
        ("ephemeral maybe", Problem::BadBool),
        ("data_dir relative/path", Problem::RelativePath),
        ("sam_address 127.0.0.1", Problem::BadSamAddress),
        ("sam_address 127.0.0.1:0", Problem::BadSamAddress),
        ("sam_address 127.0.0.1:99999", Problem::BadSamAddress),
        ("sam_address :7656", Problem::BadSamAddress),
        ("ephemeral yes\nephemeral yes", Problem::DuplicateKey),
        ("preallocate", Problem::MissingValue),
        ("preallocate sometimes", Problem::BadBool),
        ("preallocate yes\npreallocate no", Problem::DuplicateKey),
    ];
    for (text, problem) in cases {
        match Config::parse(text, &d) {
            Err(Error::Line { problem: p, .. }) => assert_eq!(p, problem, "text {text:?}"),
            other => panic!("text {text:?}: expected {problem:?}, got {other:?}"),
        }
    }
}

#[test]
fn remote_sam_needs_the_ugly_flag() {
    let d = defaults();
    let err = Config::parse("sam_address 10.0.0.2:7656\n", &d).unwrap_err();
    assert_eq!(err, Error::Line { line: 1, problem: Problem::RemoteSam });

    // The ugly flag gets you past the loopback rule and straight into the
    // truth: this build dials 127.0.0.1 and cannot do otherwise, so saying
    // "I know" does not make a remote bridge work.
    assert_eq!(
        Config::parse("sam_address 10.0.0.2:7656\ni_know_sam_is_remote yes\n", &d).unwrap_err(),
        Error::Line {
            line: 1,
            problem: Problem::UnsupportedSamTransport("a remote SAM bridge is not supported")
        }
    );

    // A unix socket is well-formed, and cannot be dialed either.
    assert_eq!(
        Config::parse("sam_address /run/sam.sock\n", &d).unwrap_err(),
        Error::Line {
            line: 1,
            problem: Problem::UnsupportedSamTransport(
                "a unix-socket SAM address is not supported; use host:port"
            )
        }
    );

    // Loopback spellings still pass, or the check above is just refusing
    // everything.
    for addr in ["127.0.0.1:7656", "localhost:7656", "[::1]:7656"] {
        let text = format!("sam_address {addr}\n");
        assert!(Config::parse(&text, &d).is_ok(), "rejected {addr}");
    }
    // Exotic loopback does not get the benefit of the doubt.
    assert!(Config::parse("sam_address 127.0.0.2:7656\n", &d).is_err());
}

fn environment(data: &str, config: &str, runtime: &str, home: &str) -> Environment {
    let set = |s: &str| if s == "-" { None } else { Some(s.to_owned()) };
    Environment {
        xdg_data_home: set(data),
        xdg_config_home: set(config),
        xdg_runtime_dir: set(runtime),
        home: set(home),
    }
}

#[test]
fn defaults_come_from_the_environment() {
    let d = Defaults::from_env(&environment("/d", "/c", "/r", "/home/u")).unwrap();
    assert_eq!(d.data_home, "/d");
    assert_eq!(d.config_home, "/c");
    assert_eq!(d.runtime_dir.as_deref(), Some("/r"));
    // An empty variable counts as unset.
    let d = Defaults::from_env(&environment("", "-", "", "/home/u")).unwrap();
    assert_eq!(d.data_home, "/home/u/.local/share");
    assert_eq!(d.config_home, "/home/u/.config");
    assert_eq!(d.runtime_dir, None);
    // Somewhere to keep state is all that is needed.
    let d = Defaults::from_env(&environment("/d", "-", "-", "-")).unwrap();
    assert_eq!(d.data_home, "/d");
    assert_eq!(d.config_home, "/d");
    assert_eq!(d.config_path(), "/d/clove/clove.conf");
    assert_eq!(d.runtime_dir, None);
    let d = Defaults::from_env(&environment("/d", "/c", "-", "")).unwrap();
    assert_eq!(d.config_home, "/c");
    // A config home is not somewhere to keep state.
    assert_eq!(Defaults::from_env(&environment("", "/c", "/r", "-")).unwrap_err(), Error::NoHome);
    let err = Defaults::from_env(&environment("-", "-", "-", "-")).unwrap_err();
    assert_eq!(err, Error::NoHome);
    assert_eq!(
        err.message(),
        "config: neither XDG_DATA_HOME nor HOME is set; set one or use data_dir"
    );
}

#[test]
fn messages_name_the_line_and_the_problem() {
    let err = Config::parse("ephemeral yes\n\nfoo bar\n", &defaults()).unwrap_err();
    assert_eq!(err.message(), "config: line 3: unknown key \"foo\"");
    let err = Config::parse("peer_limit 0\n", &defaults()).unwrap_err();
    assert_eq!(err.message(), "config: line 1: expected a number from 1 to 10000");
    assert_eq!(parse_seed_ratio("1.75"), Some(1750));
    assert_eq!(parse_seed_ratio("1,75"), None);
}

#[test]
fn a_count_is_a_plain_decimal() {
    let d = defaults();
    for bad in ["peer_limit +5", "max_active_seeds +1", "max_active_downloads 5x"] {
        assert!(
            matches!(Config::parse(bad, &d), Err(Error::Line { line: 1, problem: Problem::BadCount })),
            "{bad}"
        );
    }
    assert_eq!(Config::parse("peer_limit 007", &d).unwrap().peer_limit, 7);
}

//! What the arguments of the two commands come to.

use vstd::prelude::*;

use crate::bake_args::{
    command_of, default_args, field_list, flag_of, read_args, takes_value, with_value,
    ArgsErrorView, ArgsView, BakeCommandView, Flag,
};
use crate::config::{config_of, configured, default_config, ConfigView, ServeFlag};
use crate::pipeline::TileCompression;
use crate::text::{decimal, decimal_reads_back, list_parts, split, trimmed};

verus! {

proof fn lemma_configured_skip(c: ConfigView, args: Seq<Seq<char>>, i: int, k: int)
    requires
        0 <= k <= i <= args.len(),
    ensures
        configured(c, args, i) == configured(c, args.skip(k), i - k),
    decreases args.len() - i,
{
    let rest = args.skip(k);
    if i < args.len() {
        assert(rest[i - k] == args[i]);
        if i + 1 < args.len() {
            assert(rest[i + 1 - k] == args[i + 1]);
        }
        match crate::config::flag_of(args[i]) {
            Some(f) => {
                if i + 1 < args.len() {
                    if let Ok(next) = crate::config::with_value(c, f, args[i + 1]) {
                        lemma_configured_skip(next, args, i + 2, k);
                    }
                }
            },
            None => {
                lemma_configured_skip(ConfigView { metrics_enabled: true, ..c }, args, i + 1, k);
                lemma_configured_skip(
                    ConfigView { paths: c.paths.push(args[i]), ..c },
                    args,
                    i + 1,
                    k,
                );
            },
        }
    }
}

proof fn lemma_configured_sum(c: ConfigView, a: Seq<Seq<char>>, b: Seq<Seq<char>>, i: int)
    requires
        0 <= i <= a.len(),
        configured(c, a, i) is Ok,
    ensures
        configured(c, a + b, i) == configured(configured(c, a, i)->Ok_0, a + b, a.len() as int),
    decreases a.len() - i,
{
    let all = a + b;
    if i < a.len() {
        assert(all[i] == a[i]);
        match crate::config::flag_of(a[i]) {
            Some(f) => {
                assert(i + 1 < a.len());
                assert(all[i + 1] == a[i + 1]);
                let next = crate::config::with_value(c, f, a[i + 1])->Ok_0;
                lemma_configured_sum(next, a, b, i + 2);
            },
            None => {
                if a[i] == "--metrics"@ {
                    lemma_configured_sum(ConfigView { metrics_enabled: true, ..c }, a, b, i + 1);
                } else {
                    lemma_configured_sum(
                        ConfigView { paths: c.paths.push(a[i]), ..c },
                        a,
                        b,
                        i + 1,
                    );
                }
            },
        }
    }
}

/// Arguments of the server work wherever they stand: those that follow others start
/// from what these have come to.
pub proof fn server_arguments_are_read_in_turn(
    c: ConfigView,
    a: Seq<Seq<char>>,
    b: Seq<Seq<char>>,
)
    requires
        configured(c, a, 0) is Ok,
    ensures
        configured(c, a + b, 0) == configured(configured(c, a, 0)->Ok_0, b, 0),
{
    lemma_configured_sum(c, a, b, 0);
    lemma_configured_skip(configured(c, a, 0)->Ok_0, a + b, a.len() as int, a.len() as int);
    assert((a + b).skip(a.len() as int) =~= b);
}

proof fn lemma_server_flags_differ()
    ensures
        crate::config::flag_of("--addr"@) == Some(ServeFlag::Addr),
        crate::config::flag_of("--base-url"@) == Some(ServeFlag::BaseUrl),
        crate::config::flag_of("--api-key"@) == Some(ServeFlag::ApiKey),
        crate::config::flag_of("--cors"@) == Some(ServeFlag::Cors),
        crate::config::flag_of("--timeout"@) == Some(ServeFlag::Timeout),
        crate::config::flag_of("--max-in-flight"@) == Some(ServeFlag::MaxInFlight),
        crate::config::flag_of("--max-zoom"@) == Some(ServeFlag::MaxZoom),
        crate::config::flag_of("--metrics"@) is None,
{
    reveal_strlit("--addr");
    reveal_strlit("--base-url");
    reveal_strlit("--api-key");
    reveal_strlit("--cors");
    reveal_strlit("--timeout");
    reveal_strlit("--max-in-flight");
    reveal_strlit("--max-zoom");
    reveal_strlit("--metrics");
    assert("--addr"@[2] == 'a' && "--addr"@[3] == 'd' && "--addr"@.len() == 6);
    assert("--base-url"@[2] == 'b');
    assert("--api-key"@[2] == 'a' && "--api-key"@[3] == 'p');
    assert("--cors"@[2] == 'c');
    assert("--timeout"@[2] == 't');
    assert("--max-in-flight"@[6] == 'i' && "--max-in-flight"@[2] == 'm');
    assert("--max-zoom"@[6] == 'z' && "--max-zoom"@[2] == 'm' && "--max-zoom"@.len() == 10);
    assert("--metrics"@[3] == 'e' && "--metrics"@.len() == 9);
    assert("--max-zoom"@[3] == 'a');
    assert("--max-in-flight"@[3] == 'a');
}

/// Every flag of the server sets just what it is for, whatever was set before, and
/// leaves the rest as it is. An argument that is no flag is the path of an archive.
pub proof fn every_server_flag_sets_its_own_value(c: ConfigView, v: Seq<char>, n: nat)
    ensures
        configured(c, seq!["--addr"@, v], 0) == Ok::<ConfigView, Seq<char>>(
            ConfigView { addr: v, ..c },
        ),
        configured(c, seq!["--base-url"@, v], 0) == Ok::<ConfigView, Seq<char>>(
            ConfigView { base_url: Some(v), ..c },
        ),
        configured(c, seq!["--api-key"@, v], 0) == Ok::<ConfigView, Seq<char>>(
            ConfigView { api_key: Some(v), ..c },
        ),
        configured(c, seq!["--cors"@, v], 0) == Ok::<ConfigView, Seq<char>>(
            ConfigView { cors_origins: c.cors_origins.push(v), ..c },
        ),
        n <= u64::MAX ==> configured(c, seq!["--timeout"@, decimal(n)], 0) == Ok::<
            ConfigView,
            Seq<char>,
        >(ConfigView { request_timeout: n as u64, ..c }),
        n <= usize::MAX ==> configured(c, seq!["--max-in-flight"@, decimal(n)], 0) == Ok::<
            ConfigView,
            Seq<char>,
        >(ConfigView { max_in_flight: n as usize, ..c }),
        n <= 30 ==> configured(c, seq!["--max-zoom"@, decimal(n)], 0) == Ok::<
            ConfigView,
            Seq<char>,
        >(ConfigView { max_zoom_request: n as u8, ..c }),
        n > 30 ==> configured(c, seq!["--max-zoom"@, decimal(n)], 0) == Err::<
            ConfigView,
            Seq<char>,
        >("--max-zoom must be 0-30"@),
        configured(c, seq!["--metrics"@], 0) == Ok::<ConfigView, Seq<char>>(
            ConfigView { metrics_enabled: true, ..c },
        ),
        v != "--addr"@ && v != "--base-url"@ && v != "--api-key"@ && v != "--cors"@ && v
            != "--timeout"@ && v != "--max-in-flight"@ && v != "--max-zoom"@ && v != "--metrics"@
            ==> configured(c, seq![v], 0) == Ok::<ConfigView, Seq<char>>(
            ConfigView { paths: c.paths.push(v), ..c },
        ),
{
    reveal_with_fuel(configured, 2);
    lemma_server_flags_differ();
    decimal_reads_back(n, u64::MAX as int);
    decimal_reads_back(n, usize::MAX as int);
    decimal_reads_back(n, 30);
}

/// The server runs with what its arguments come to, starting from the defaults, and only
/// with an archive to serve; without arguments nothing is set.
pub proof fn the_server_needs_an_archive(args: Seq<Seq<char>>)
    ensures
        config_of(args) matches Ok(c) ==> c.paths.len() > 0 && configured(
            default_config(),
            args,
            0,
        ) == Ok::<ConfigView, Seq<char>>(c),
        configured(default_config(), args, 0) matches Ok(c) && c.paths.len() > 0 ==> config_of(args)
            is Ok,
        configured(default_config(), args, 0) matches Err(e) ==> config_of(args) == Err::<
            ConfigView,
            Seq<char>,
        >(e),
        configured(default_config(), Seq::empty(), 0) == Ok::<ConfigView, Seq<char>>(
            ConfigView {
                paths: Seq::empty(),
                addr: "0.0.0.0:3000"@,
                base_url: None,
                api_key: None,
                cors_origins: Seq::empty(),
                request_timeout: 10,
                max_in_flight: 512,
                max_zoom_request: 24,
                metrics_enabled: false,
            },
        ),
{
}

proof fn lemma_read_skip(
    args: Seq<Seq<char>>,
    numbers: Seq<bool>,
    i: int,
    st: ArgsView,
    k: int,
)
    requires
        0 <= k <= i <= args.len(),
        args.len() == numbers.len(),
    ensures
        read_args(args, numbers, i, st) == read_args(args.skip(k), numbers.skip(k), i - k, st),
    decreases args.len() - i,
{
    let rest = args.skip(k);
    if i < args.len() {
        assert(rest[i - k] == args[i]);
        let f = flag_of(args[i]);
        if takes_value(f) {
            if i + 1 < args.len() {
                assert(rest[i + 1 - k] == args[i + 1]);
                assert(numbers.skip(k)[i + 1 - k] == numbers[i + 1]);
                if let Ok(next) = with_value(st, f, args[i + 1], numbers[i + 1]) {
                    lemma_read_skip(args, numbers, i + 2, next, k);
                }
            }
        } else {
            lemma_read_skip(args, numbers, i + 1, ArgsView { interactive: true, ..st }, k);
            lemma_read_skip(
                args,
                numbers,
                i + 1,
                ArgsView { inputs: st.inputs.push(args[i]), ..st },
                k,
            );
        }
    }
}

proof fn lemma_read_sum(
    a: Seq<Seq<char>>,
    m: Seq<bool>,
    b: Seq<Seq<char>>,
    n: Seq<bool>,
    i: int,
    st: ArgsView,
)
    requires
        0 <= i <= a.len(),
        a.len() == m.len(),
        b.len() == n.len(),
        read_args(a, m, i, st) is Ok,
    ensures
        read_args(a + b, m + n, i, st) == read_args(
            a + b,
            m + n,
            a.len() as int,
            read_args(a, m, i, st)->Ok_0,
        ),
    decreases a.len() - i,
{
    let all = a + b;
    if i < a.len() {
        assert(all[i] == a[i]);
        let f = flag_of(a[i]);
        if takes_value(f) {
            assert(i + 1 < a.len());
            assert(all[i + 1] == a[i + 1]);
            assert((m + n)[i + 1] == m[i + 1]);
            let next = with_value(st, f, a[i + 1], m[i + 1])->Ok_0;
            lemma_read_sum(a, m, b, n, i + 2, next);
        } else if f == Flag::Interactive {
            lemma_read_sum(a, m, b, n, i + 1, ArgsView { interactive: true, ..st });
        } else {
            lemma_read_sum(a, m, b, n, i + 1, ArgsView { inputs: st.inputs.push(a[i]), ..st });
        }
    }
}

/// Arguments of the baker work wherever they stand: those that follow others start from
/// what these have come to.
pub proof fn bake_arguments_are_read_in_turn(
    a: Seq<Seq<char>>,
    m: Seq<bool>,
    b: Seq<Seq<char>>,
    n: Seq<bool>,
    st: ArgsView,
)
    requires
        a.len() == m.len(),
        b.len() == n.len(),
        read_args(a, m, 0, st) is Ok,
    ensures
        read_args(a + b, m + n, 0, st) == read_args(b, n, 0, read_args(a, m, 0, st)->Ok_0),
{
    lemma_read_sum(a, m, b, n, 0, st);
    let k = a.len() as int;
    lemma_read_skip(a + b, m + n, k, read_args(a, m, 0, st)->Ok_0, k);
    assert((a + b).skip(k) =~= b);
    assert((m + n).skip(k) =~= n);
}

proof fn lemma_bake_flags_differ()
    ensures
        flag_of("--layer"@) == Flag::Layer,
        flag_of("--layers"@) == Flag::Layer,
        flag_of("--min-zoom"@) == Flag::MinZoom,
        flag_of("--max-zoom"@) == Flag::MaxZoom,
        flag_of("--compression"@) == Flag::Compression,
        flag_of("--attribution"@) == Flag::Attribution,
        flag_of("--tolerance"@) == Flag::Tolerance,
        flag_of("-o"@) == Flag::Output,
        flag_of("--output"@) == Flag::Output,
        flag_of("--interactive"@) == Flag::Interactive,
        flag_of("--include-fields"@) == Flag::KeepFields,
        flag_of("--exclude-fields"@) == Flag::DropFields,
        forall|v: Seq<char>|
            v.len() == 0 || v[0] != '-' ==> #[trigger] flag_of(v) == Flag::Input,
{
    reveal_strlit("--layer");
    reveal_strlit("--layers");
    reveal_strlit("--min-zoom");
    reveal_strlit("--max-zoom");
    reveal_strlit("--compression");
    reveal_strlit("--attribution");
    reveal_strlit("--tolerance");
    reveal_strlit("-o");
    reveal_strlit("--output");
    reveal_strlit("--interactive");
    reveal_strlit("--include-fields");
    reveal_strlit("--exclude-fields");
    assert("--layer"@.len() == 7 && "--layer"@[2] == 'l');
    assert("--layers"@.len() == 8 && "--layers"@[2] == 'l');
    assert("--min-zoom"@[2] == 'm' && "--min-zoom"@[3] == 'i');
    assert("--max-zoom"@[2] == 'm' && "--max-zoom"@[3] == 'a');
    assert("--compression"@[2] == 'c');
    assert("--attribution"@[2] == 'a');
    assert("--tolerance"@[2] == 't');
    assert("-o"@.len() == 2 && "-o"@[0] == '-');
    assert("--output"@[2] == 'o' && "--output"@.len() == 8);
    assert("--interactive"@[2] == 'i' && "--interactive"@[4] == 't');
    assert("--include-fields"@[2] == 'i' && "--include-fields"@[4] == 'c');
    assert("--exclude-fields"@[2] == 'e');
    assert("--layer"@[0] == '-' && "--layers"@[0] == '-' && "--min-zoom"@[0] == '-'
        && "--max-zoom"@[0] == '-' && "--compression"@[0] == '-' && "--attribution"@[0] == '-'
        && "--tolerance"@[0] == '-' && "--output"@[0] == '-' && "--interactive"@[0] == '-'
        && "--include-fields"@[0] == '-' && "--exclude-fields"@[0] == '-');
}

/// Every flag of the baker sets just what it is for, whatever was set before, and leaves
/// the rest as it is: layer names and dropped fields are added to those before, the
/// other values replace them. An argument without a dash in front is an input.
pub proof fn every_bake_flag_sets_its_own_value(st: ArgsView, v: Seq<char>, n: nat, b: bool)
    ensures
        read_args(seq!["--layer"@, v], seq![b, b], 0, st) == Ok::<ArgsView, ArgsErrorView>(
            ArgsView { layer_names: st.layer_names + list_parts(v), ..st },
        ),
        read_args(seq!["--layers"@, v], seq![b, b], 0, st) == Ok::<ArgsView, ArgsErrorView>(
            ArgsView { layer_names: st.layer_names + list_parts(v), ..st },
        ),
        read_args(seq!["--min-zoom"@, decimal(n)], seq![b, b], 0, st) == (if n <= 30 {
            Ok::<ArgsView, ArgsErrorView>(ArgsView { min_zoom: n as u8, ..st })
        } else {
            Err(ArgsErrorView::MinZoom)
        }),
        read_args(seq!["--max-zoom"@, decimal(n)], seq![b, b], 0, st) == (if n <= 30 {
            Ok::<ArgsView, ArgsErrorView>(ArgsView { max_zoom: n as u8, ..st })
        } else {
            Err(ArgsErrorView::MaxZoom)
        }),
        read_args(seq!["--compression"@, "gzip"@], seq![b, b], 0, st) == Ok::<
            ArgsView,
            ArgsErrorView,
        >(ArgsView { compression: TileCompression::Gzip, ..st }),
        read_args(seq!["--compression"@, "brotli"@], seq![b, b], 0, st) == Ok::<
            ArgsView,
            ArgsErrorView,
        >(ArgsView { compression: TileCompression::Brotli, ..st }),
        v != "gzip"@ && v != "brotli"@ ==> read_args(seq!["--compression"@, v], seq![b, b], 0, st)
            == Err::<ArgsView, ArgsErrorView>(ArgsErrorView::Compression(v)),
        read_args(seq!["--attribution"@, v], seq![b, b], 0, st) == Ok::<ArgsView, ArgsErrorView>(
            ArgsView { attribution: Some(v), ..st },
        ),
        read_args(seq!["--tolerance"@, v], seq![b, true], 0, st) == Ok::<ArgsView, ArgsErrorView>(
            ArgsView { tolerance: Some(v), ..st },
        ),
        read_args(seq!["--tolerance"@, v], seq![b, false], 0, st) == Err::<
            ArgsView,
            ArgsErrorView,
        >(ArgsErrorView::Tolerance),
        read_args(seq!["-o"@, v], seq![b, b], 0, st) == Ok::<ArgsView, ArgsErrorView>(
            ArgsView { output: v, ..st },
        ),
        read_args(seq!["--output"@, v], seq![b, b], 0, st) == Ok::<ArgsView, ArgsErrorView>(
            ArgsView { output: v, ..st },
        ),
        read_args(seq!["--interactive"@], seq![b], 0, st) == Ok::<ArgsView, ArgsErrorView>(
            ArgsView { interactive: true, ..st },
        ),
        read_args(seq!["--include-fields"@, v], seq![b, b], 0, st) == Ok::<
            ArgsView,
            ArgsErrorView,
        >(ArgsView { kept_fields: Some(field_list(v)), ..st }),
        read_args(seq!["--exclude-fields"@, v], seq![b, b], 0, st) == Ok::<
            ArgsView,
            ArgsErrorView,
        >(ArgsView { dropped_fields: st.dropped_fields + field_list(v), ..st }),
        v.len() == 0 || v[0] != '-' ==> read_args(seq![v], seq![b], 0, st) == Ok::<
            ArgsView,
            ArgsErrorView,
        >(ArgsView { inputs: st.inputs.push(v), ..st }),
{
    reveal_with_fuel(read_args, 2);
    lemma_bake_flags_differ();
    decimal_reads_back(n, 30);
    reveal_strlit("gzip");
    reveal_strlit("brotli");
    assert("gzip"@.len() == 4 && "brotli"@.len() == 6);
}

/// A list of fields names its parts between the commas, without the white space around
/// them and without empty ones, in their order.
pub proof fn field_lists_name_every_part(s: Seq<char>)
    ensures
        field_list(s) == split(s, ',').map_values(
            |p: Seq<char>| trimmed(p),
        ).filter(|p: Seq<char>| p.len() > 0),
{
}

/// The baker bakes with what its arguments come to, starting from the defaults, and only
/// with an input; help and inspection are asked for in the first argument.
pub proof fn the_baker_needs_an_input(args: Seq<Seq<char>>, numbers: Seq<bool>)
    ensures
        command_of(Seq::empty(), Seq::empty()) == Ok::<BakeCommandView, ArgsErrorView>(
            BakeCommandView::Help,
        ),
        args.len() > 0 && (args[0] == "--help"@ || args[0] == "-h"@) ==> command_of(args, numbers)
            == Ok::<BakeCommandView, ArgsErrorView>(BakeCommandView::Help),
        args.len() > 1 && args[0] == "inspect"@ ==> command_of(args, numbers) == Ok::<
            BakeCommandView,
            ArgsErrorView,
        >(BakeCommandView::Inspect(args[1])),
        args.len() > 0 && args[0] != "--help"@ && args[0] != "-h"@ && args[0] != "inspect"@ ==> {
            match read_args(args, numbers, 0, default_args()) {
                Err(e) => command_of(args, numbers) == Err::<BakeCommandView, ArgsErrorView>(e),
                Ok(st) => command_of(args, numbers) == (if st.inputs.len() > 0 {
                    Ok::<BakeCommandView, ArgsErrorView>(BakeCommandView::Bake(st))
                } else {
                    Err(ArgsErrorView::NoInput)
                }),
            }
        },
        default_args() == (ArgsView {
            inputs: Seq::empty(),
            layer_names: Seq::empty(),
            min_zoom: 0,
            max_zoom: 14,
            compression: TileCompression::Gzip,
            attribution: None,
            output: "out.pmtiles"@,
            tolerance: None,
            interactive: false,
            kept_fields: None,
            dropped_fields: Seq::empty(),
        }),
{
    reveal_strlit("--help");
    reveal_strlit("-h");
    reveal_strlit("inspect");
    assert("--help"@[0] == '-' && "-h"@[0] == '-' && "inspect"@[0] == 'i');
}

} // verus!

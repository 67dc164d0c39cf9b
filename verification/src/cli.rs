//! What the command line asks for: format, field names, sources and theme,
//! and the summary that a dry run prints.

use vstd::prelude::*;
use vstd::string::*;

use crate::engine::format::LogFormat;
use crate::engine::parse::FieldNames;
use crate::engine::Engine;
use crate::io::compressed::Compression;
use crate::io::json_array;
use crate::number;
use crate::scan;
use crate::scan::ByteClass;
use crate::schema;
use crate::text;

verus! {

/// Bytes read from the first file to guess its format.
pub const PROBE_BYTES: usize = 16_384;

/// Lines of the probe that vote.
pub const PROBE_LINES: usize = 64;

/// Bytes of a JSON array that are flattened in memory.
pub const MAX_ARRAY_BYTES: u64 = 67_108_864;

/// Auto-columns listed by a dry run.
pub const DRY_RUN_COLUMNS: usize = 8;

/// The format that a `--format` value names.
pub open spec fn format_named(name: Seq<char>) -> Option<LogFormat> {
    if name == "ndjson"@ {
        Some(LogFormat::Ndjson)
    } else if name == "logfmt"@ {
        Some(LogFormat::Logfmt)
    } else if name == "edn"@ {
        Some(LogFormat::Edn)
    } else if name == "python"@ {
        Some(LogFormat::Python)
    } else if name == "syslog"@ {
        Some(LogFormat::Syslog)
    } else if name == "csv"@ {
        Some(LogFormat::Csv)
    } else if name == "tsv"@ {
        Some(LogFormat::Tsv)
    } else if name == "access"@ {
        Some(LogFormat::Access)
    } else if name == "logback"@ || name == "log4j"@ || name == "java"@ {
        Some(LogFormat::Logback)
    } else if name == "journalctl"@ || name == "journal"@ || name == "systemd"@ {
        Some(LogFormat::Journalctl)
    } else if name == "regex"@ {
        Some(LogFormat::Regex)
    } else {
        None
    }
}

/// What is said of a `--format` value that names none.
pub open spec fn format_error(name: Seq<char>) -> Seq<char> {
    "unknown --format value '"@ + name
        + "'; valid: ndjson, logfmt, edn, python, syslog, csv, tsv, access, logback, journalctl, regex"@
}

/// Resolve a `--format` value.
pub fn parse_format(name: &str) -> (r: Result<LogFormat, String>)
    ensures
        match r {
            Ok(f) => format_named(name@) == Some(f),
            Err(e) => format_named(name@) is None && e@ == format_error(name@),
        },
{
    let f: LogFormat = if text::str_eq(name, "ndjson") {
        LogFormat::Ndjson
    } else if text::str_eq(name, "logfmt") {
        LogFormat::Logfmt
    } else if text::str_eq(name, "edn") {
        LogFormat::Edn
    } else if text::str_eq(name, "python") {
        LogFormat::Python
    } else if text::str_eq(name, "syslog") {
        LogFormat::Syslog
    } else if text::str_eq(name, "csv") {
        LogFormat::Csv
    } else if text::str_eq(name, "tsv") {
        LogFormat::Tsv
    } else if text::str_eq(name, "access") {
        LogFormat::Access
    } else if text::str_eq(name, "logback") || text::str_eq(name, "log4j") || text::str_eq(
        name,
        "java",
    ) {
        LogFormat::Logback
    } else if text::str_eq(name, "journalctl") || text::str_eq(name, "journal") || text::str_eq(
        name,
        "systemd",
    ) {
        LogFormat::Journalctl
    } else if text::str_eq(name, "regex") {
        LogFormat::Regex
    } else {
        return Err(
            "unknown --format value '".to_owned().concat(name).concat(
                "'; valid: ndjson, logfmt, edn, python, syslog, csv, tsv, access, logback, journalctl, regex",
            ),
        );
    };
    Ok(f)
}

/// The format that the flags force, if any. A pattern implies its own format,
/// but a `--format` value that names none is refused all the same.
pub fn forced_format(name: Option<&str>, has_pattern: bool) -> (r: Result<
    Option<LogFormat>,
    String,
>)
    ensures
        match r {
            Ok(f) => (name matches Some(n) ==> format_named(n@) is Some) && f == (
            if has_pattern {
                Some(LogFormat::Regex)
            } else {
                match name {
                    Some(n) => format_named(n@),
                    None => None,
                }
            }),
            Err(e) => name matches Some(n) && format_named(n@) is None && e@ == format_error(n@),
        },
{
    let named: Option<LogFormat> = match name {
        Some(n) => match parse_format(n) {
            Ok(f) => Some(f),
            Err(e) => {
                return Err(e);
            },
        },
        None => None,
    };
    if has_pattern {
        Ok(Some(LogFormat::Regex))
    } else {
        Ok(named)
    }
}

/// What is said of a `--theme` value that names none.
pub fn theme_error(name: &str) -> (r: String)
    ensures
        r@ == "unknown --theme value '"@ + name@ + "'; valid: dark, light, nocolor"@,
{
    "unknown --theme value '".to_owned().concat(name).concat("'; valid: dark, light, nocolor")
}

/// The field names that the flags ask for: none when neither is given, so that
/// the defaults stay on their fast path.
pub fn field_names(time_field: Option<&str>, level_field: Option<&str>) -> (r: Option<FieldNames>)
    ensures
        match r {
            None => time_field is None && level_field is None,
            Some(f) => {
                &&& time_field is Some || level_field is Some
                &&& f.ts@ == (match time_field {
                    Some(t) => t@,
                    None => "ts"@,
                })
                &&& f.level@ == (match level_field {
                    Some(l) => l@,
                    None => "level"@,
                })
            },
        },
{
    if time_field.is_none() && level_field.is_none() {
        return None;
    }
    let mut f: FieldNames = FieldNames::default();
    if let Some(t) = time_field {
        f.ts = t.to_owned();
    }
    if let Some(l) = level_field {
        f.level = l.to_owned();
    }
    Some(f)
}

/// Where the records come from.
#[derive(Debug, Clone, Copy, PartialEq, Eq, Structural)]
pub enum Plan {
    /// No input: say how to use the program, and leave.
    Usage,
    Stdin,
    /// One file, read once.
    File,
    /// One file, read and then followed.
    Follow,
    /// Several files, merged by time.
    Merge,
}

/// The texts of some arguments.
pub open spec fn arg_texts(args: Seq<&str>) -> Seq<Seq<char>> {
    Seq::new(args.len(), |i: int| args[i]@)
}

/// Where the records come from; nothing when stdin and files are mixed.
pub open spec fn plan_of(files: Seq<Seq<char>>, stdin_is_tty: bool, follow: bool) -> Option<Plan> {
    if files.len() == 0 {
        Some(
            if stdin_is_tty {
                Plan::Usage
            } else {
                Plan::Stdin
            },
        )
    } else if files.len() == 1 {
        Some(
            if files[0] == "-"@ {
                Plan::Stdin
            } else if follow {
                Plan::Follow
            } else {
                Plan::File
            },
        )
    } else if files.contains("-"@) {
        None
    } else {
        Some(Plan::Merge)
    }
}

/// Decide where the records come from.
pub fn plan(files: &Vec<&str>, stdin_is_tty: bool, follow: bool) -> (r: Result<Plan, String>)
    ensures
        match r {
            Ok(p) => plan_of(arg_texts(files@), stdin_is_tty, follow) == Some(p),
            Err(e) => plan_of(arg_texts(files@), stdin_is_tty, follow) is None && e@
                == "mixing stdin and files in one run is not supported in v0.1; pick either files OR stdin"@,
        },
{
    let ghost all = arg_texts(files@);
    if files.len() == 0 {
        return Ok(
            if stdin_is_tty {
                Plan::Usage
            } else {
                Plan::Stdin
            },
        );
    }
    if files.len() == 1 {
        return Ok(
            if text::str_eq(files[0], "-") {
                Plan::Stdin
            } else if follow {
                Plan::Follow
            } else {
                Plan::File
            },
        );
    }
    let mut i: usize = 0;
    while i < files.len()
        invariant
            i <= files@.len(),
            files@.len() > 1,
            all == arg_texts(files@),
            forall|k: int| 0 <= k < i ==> #[trigger] all[k] != "-"@,
        decreases files@.len() - i,
    {
        if text::str_eq(files[i], "-") {
            assert(all[i as int] == "-"@);
            return Err(
                "mixing stdin and files in one run is not supported in v0.1; pick either files OR stdin".to_owned(),
            );
        }
        i = i + 1;
    }
    Ok(Plan::Merge)
}

/// Texts with a comma between.
pub open spec fn comma_joined(parts: Seq<Seq<char>>) -> Seq<char>
    decreases parts.len(),
{
    if parts.len() == 0 {
        Seq::empty()
    } else if parts.len() == 1 {
        parts[0]
    } else {
        comma_joined(parts.drop_last()) + ", "@ + parts.last()
    }
}

/// What the source is called.
pub open spec fn label_of(plan: Plan, files: Seq<Seq<char>>) -> Seq<char> {
    match plan {
        Plan::File => comma_joined(files),
        Plan::Merge => comma_joined(files),
        Plan::Follow => comma_joined(files) + " (follow)"@,
        _ => "<stdin>"@,
    }
}

fn join_commas(parts: &Vec<&str>) -> (r: String)
    ensures
        r@ == comma_joined(arg_texts(parts@)),
{
    let ghost all = arg_texts(parts@);
    let mut out: String = String::new();
    let mut i: usize = 0;
    assert(all.take(0) =~= Seq::empty());
    assert(out@ =~= Seq::empty());
    while i < parts.len()
        invariant
            i <= parts@.len(),
            all == arg_texts(parts@),
            out@ == comma_joined(all.take(i as int)),
        decreases parts@.len() - i,
    {
        assert(all.take(i + 1).drop_last() =~= all.take(i as int));
        assert(all.take(i + 1).last() == parts@[i as int]@);
        if i > 0 {
            out.append(", ");
        }
        out.append(parts[i]);
        assert(out@ =~= comma_joined(all.take(i + 1)));
        i = i + 1;
    }
    assert(all.take(all.len() as int) =~= all);
    out
}

/// What the source is called.
pub fn source_label(plan: Plan, files: &Vec<&str>) -> (r: String)
    ensures
        r@ == label_of(plan, arg_texts(files@)),
{
    match plan {
        Plan::File => join_commas(files),
        Plan::Merge => join_commas(files),
        Plan::Follow => join_commas(files).concat(" (follow)"),
        _ => "<stdin>".to_owned(),
    }
}

/// A line without one carriage return at its end.
pub open spec fn without_return(b: Seq<u8>) -> Seq<u8> {
    if b.len() > 0 && b.last() == '\r' as u8 {
        b.drop_last()
    } else {
        b
    }
}

/// The lines of a probe that vote, from index `i` on: of the first `n` pieces
/// between newlines those that are not empty.
pub open spec fn probe_lines(b: Seq<u8>, i: int, n: int) -> Seq<Seq<u8>>
    decreases n,
{
    if n <= 0 || !(0 <= i <= b.len()) {
        Seq::empty()
    } else {
        let e = scan::run_end(b, i, ByteClass::Except('\n' as u8));
        let line = without_return(b.subrange(i, e));
        let rest = if e < b.len() {
            probe_lines(b, e + 1, n - 1)
        } else {
            Seq::empty()
        };
        if line.len() == 0 {
            rest
        } else {
            seq![line] + rest
        }
    }
}

/// The format that a probe votes for; nothing when it has no line.
pub open spec fn probe_verdict(b: Seq<u8>) -> Option<LogFormat> {
    let lines = probe_lines(b, 0, PROBE_LINES as int);
    if lines.len() == 0 {
        None
    } else {
        Some(crate::engine::format::verdict(lines))
    }
}

/// Guess the format of a file by the bytes it starts with.
pub fn detect_format(probe: &[u8]) -> (r: Option<LogFormat>)
    ensures
        r == probe_verdict(probe@),
{
    let ghost all = probe_lines(probe@, 0, PROBE_LINES as int);
    let mut lines: Vec<&[u8]> = Vec::new();
    let mut i: usize = 0;
    let mut left: usize = PROBE_LINES;
    let mut more: bool = true;
    assert(crate::engine::format::line_views(lines@) + all =~= all);
    while left > 0 && more
        invariant
            left <= PROBE_LINES,
            i <= probe@.len(),
            all == probe_lines(probe@, 0, PROBE_LINES as int),
            all == crate::engine::format::line_views(lines@) + (if more {
                probe_lines(probe@, i as int, left as int)
            } else {
                Seq::empty()
            }),
        decreases left,
    {
        let e: usize = scan::skip(probe, i, ByteClass::Except('\n' as u8));
        proof {
            scan::lemma_run_end(probe@, i as int, ByteClass::Except('\n' as u8));
        }
        let stop: usize = if e > i && probe[e - 1] == '\r' as u8 {
            e - 1
        } else {
            e
        };
        let line: &[u8] = &probe[i..stop];
        let ghost before = crate::engine::format::line_views(lines@);
        let ghost tail = if e < probe@.len() {
            probe_lines(probe@, e + 1, left - 1)
        } else {
            Seq::empty()
        };
        assert(line@ =~= without_return(probe@.subrange(i as int, e as int)));
        if line.len() > 0 {
            lines.push(line);
            assert(crate::engine::format::line_views(lines@) =~= before.push(line@));
            assert(before + (seq![line@] + tail) =~= before.push(line@) + tail);
        }
        left = left - 1;
        if e < probe.len() {
            i = e + 1;
        } else {
            more = false;
        }
    }
    assert(crate::engine::format::line_views(lines@) =~= all);
    assert(crate::engine::format::line_views(lines@).len() == lines@.len());
    if lines.len() == 0 {
        return None;
    }
    Some(LogFormat::detect(lines.as_slice()))
}

/// A string as the debug formatter writes it, in quotes and with escapes.
pub uninterp spec fn debug_text(s: Seq<char>) -> Seq<char>;

/// `format!` with `{:?}` on a string. The result is a function of the string.
#[verifier::external_body]
fn quoted(s: &str) -> (r: String)
    ensures
        r@ == debug_text(s@),
{
    format!("{:?}", s)
}

/// Texts as the debug formatter writes them.
pub open spec fn debug_texts(parts: Seq<Seq<char>>) -> Seq<Seq<char>> {
    Seq::new(parts.len(), |i: int| debug_text(parts[i]))
}

fn quoted_list(parts: &Vec<String>) -> (r: String)
    ensures
        r@ == "["@ + comma_joined(debug_texts(text::texts(parts@))) + "]"@,
{
    let ghost all = debug_texts(text::texts(parts@));
    let mut out: String = "[".to_owned();
    let mut i: usize = 0;
    assert(all.take(0) =~= Seq::empty());
    assert(out@ =~= "["@ + comma_joined(all.take(0)));
    while i < parts.len()
        invariant
            i <= parts@.len(),
            all == debug_texts(text::texts(parts@)),
            out@ == "["@ + comma_joined(all.take(i as int)),
        decreases parts@.len() - i,
    {
        assert(all.take(i + 1).drop_last() =~= all.take(i as int));
        assert(all.take(i + 1).last() == debug_text(parts@[i as int]@));
        if i > 0 {
            out.append(", ");
        }
        out.append(quoted(parts[i].as_str()).as_str());
        assert(out@ =~= "["@ + comma_joined(all.take(i + 1)));
        i = i + 1;
    }
    assert(all.take(all.len() as int) =~= all);
    out.append("]");
    out
}

/// The first line that a dry run prints.
pub open spec fn index_text(records: int, untimed: int, bad: int, json: int) -> Seq<char> {
    "indexed "@ + number::digits(records) + " records — untimed: "@ + number::digits(untimed)
        + " (ts missing/bad: "@ + number::digits(untimed - bad) + "/"@ + number::digits(bad)
        + "), json errors: "@ + number::digits(json)
}

/// The second line that a dry run prints.
pub open spec fn schema_text(fields: int, scanned: int, columns: Seq<Seq<char>>) -> Seq<char> {
    "schema: "@ + number::digits(fields) + " fields scanned ("@ + number::digits(scanned)
        + " records in warmup), auto-columns: ["@ + comma_joined(debug_texts(columns)) + "]"@
}

/// The auto-columns that a dry run lists.
pub open spec fn listed_columns(engine: Engine) -> Seq<Seq<char>> {
    match engine.schema {
        Some(s) => {
            let all = schema::column_names(s.ordered_fields@);
            if DRY_RUN_COLUMNS < all.len() {
                all.take(DRY_RUN_COLUMNS as int)
            } else {
                all
            }
        },
        None => Seq::empty(),
    }
}

/// The two lines that a dry run prints.
pub fn dry_run_summary(engine: &Engine) -> (r: (String, String))
    requires
        engine.indexes.parse_stats.ts_parse_errors <= engine.indexes.parse_stats.untimed,
    ensures
        r.0@ == index_text(
            engine.indexes.line.locs@.len() as int,
            engine.indexes.parse_stats.untimed as int,
            engine.indexes.parse_stats.ts_parse_errors as int,
            engine.indexes.parse_stats.json_parse_errors as int,
        ),
        r.1@ == schema_text(
            match engine.schema {
                Some(s) => s.ordered_fields@.len() as int,
                None => 0,
            },
            match engine.schema {
                Some(s) => s.records_scanned as int,
                None => 0,
            },
            listed_columns(*engine),
        ),
{
    let records: usize = engine.indexes.len();
    let ps = engine.indexes.parse_stats;
    let first: String = "indexed ".to_owned().concat(
        number::decimal_text(records as u64).as_str(),
    ).concat(" records — untimed: ").concat(number::decimal_text(ps.untimed).as_str()).concat(
        " (ts missing/bad: ",
    ).concat(number::decimal_text(ps.untimed - ps.ts_parse_errors).as_str()).concat("/").concat(
        number::decimal_text(ps.ts_parse_errors).as_str(),
    ).concat("), json errors: ").concat(number::decimal_text(ps.json_parse_errors).as_str());
    let (fields, scanned, columns): (usize, u64, Vec<String>) = match &engine.schema {
        Some(s) => (
            s.ordered_fields.len(),
            s.records_scanned as u64,
            s.auto_columns(DRY_RUN_COLUMNS),
        ),
        None => (0, 0, Vec::new()),
    };
    assert(text::texts(columns@) =~= listed_columns(*engine));
    let second: String = "schema: ".to_owned().concat(
        number::decimal_text(fields as u64).as_str(),
    ).concat(" fields scanned (").concat(number::decimal_text(scanned).as_str()).concat(
        " records in warmup), auto-columns: ",
    ).concat(quoted_list(&columns).as_str());
    proof {
        reveal_strlit(" records in warmup), auto-columns: ");
        reveal_strlit(" records in warmup), auto-columns: [");
        reveal_strlit("[");
        assert(" records in warmup), auto-columns: "@ + "["@
            =~= " records in warmup), auto-columns: ["@);
        assert(second@ =~= schema_text(fields as int, scanned as int, listed_columns(*engine)));
    }
    (first, second)
}

/// How a file whose first bytes are known is read.
#[derive(Debug, Clone, Copy, PartialEq, Eq, Structural)]
pub enum Intake {
    /// Mapped, line by line.
    Lines,
    /// Decompressed as a stream.
    Stream,
    /// Flattened from a JSON array.
    Array,
    /// A JSON array too large to flatten in memory.
    OversizeArray,
}

/// How a file is read, by its first bytes and its size.
pub open spec fn intake_of(head: Seq<u8>, size: u64) -> Intake {
    if Compression::of_magic(head)
        != Compression::Plain {
        Intake::Stream
    } else if json_array::is_json_array(head) {
        if size > MAX_ARRAY_BYTES {
            Intake::OversizeArray
        } else {
            Intake::Array
        }
    } else {
        Intake::Lines
    }
}

/// Decide how a file is read.
pub fn intake(head: &[u8], size: u64) -> (r: Intake)
    ensures
        r == intake_of(head@, size),
{
    if Compression::detect(head)
        != Compression::Plain {
        Intake::Stream
    } else if json_array::looks_like_json_array(head) {
        if size > MAX_ARRAY_BYTES {
            Intake::OversizeArray
        } else {
            Intake::Array
        }
    } else {
        Intake::Lines
    }
}

/// Each format has its names, and no other text names one.
pub proof fn law_formats_have_their_names(name: Seq<char>)
    ensures
        format_named(name) == Some(LogFormat::Ndjson) <==> name == "ndjson"@,
        format_named(name) == Some(LogFormat::Logfmt) <==> name == "logfmt"@,
        format_named(name) == Some(LogFormat::Edn) <==> name == "edn"@,
        format_named(name) == Some(LogFormat::Python) <==> name == "python"@,
        format_named(name) == Some(LogFormat::Syslog) <==> name == "syslog"@,
        format_named(name) == Some(LogFormat::Access) <==> name == "access"@,
        format_named(name) == Some(LogFormat::Csv) <==> name == "csv"@,
        format_named(name) == Some(LogFormat::Tsv) <==> name == "tsv"@,
        format_named(name) == Some(LogFormat::Logback) <==> name == "logback"@ || name == "log4j"@
            || name == "java"@,
        format_named(name) == Some(LogFormat::Journalctl) <==> name == "journalctl"@ || name
            == "journal"@ || name == "systemd"@,
        format_named(name) == Some(LogFormat::Regex) <==> name == "regex"@,
{
    reveal_strlit("ndjson");
    reveal_strlit("logfmt");
    reveal_strlit("edn");
    reveal_strlit("python");
    reveal_strlit("syslog");
    reveal_strlit("access");
    reveal_strlit("csv");
    reveal_strlit("tsv");
    reveal_strlit("logback");
    reveal_strlit("log4j");
    reveal_strlit("java");
    reveal_strlit("journalctl");
    reveal_strlit("journal");
    reveal_strlit("systemd");
    reveal_strlit("regex");
    assert("ndjson"@.len() == 6 && "ndjson"@[0] == 'n');
    assert("logfmt"@.len() == 6 && "logfmt"@[0] == 'l');
    assert("edn"@.len() == 3 && "edn"@[0] == 'e');
    assert("python"@.len() == 6 && "python"@[0] == 'p');
    assert("syslog"@.len() == 6 && "syslog"@[0] == 's');
    assert("access"@.len() == 6 && "access"@[0] == 'a');
    assert("csv"@.len() == 3 && "csv"@[0] == 'c');
    assert("tsv"@.len() == 3 && "tsv"@[0] == 't');
    assert("logback"@.len() == 7 && "logback"@[0] == 'l');
    assert("log4j"@.len() == 5 && "log4j"@[0] == 'l');
    assert("java"@.len() == 4);
    assert("journalctl"@.len() == 10);
    assert("journal"@.len() == 7 && "journal"@[0] == 'j');
    assert("systemd"@.len() == 7 && "systemd"@[0] == 's');
    assert("regex"@.len() == 5 && "regex"@[0] == 'r');
}

/// No file, or `-` alone, is the standard input, and with a terminal there the
/// usage; one file is read, or followed if that was asked; several are merged,
/// and `-` cannot be among them.
pub proof fn law_sources_of_a_run(files: Seq<Seq<char>>, stdin_is_tty: bool, follow: bool)
    ensures
        files.len() == 0 && stdin_is_tty <==> plan_of(files, stdin_is_tty, follow) == Some(
            Plan::Usage,
        ),
        (files.len() == 0 && !stdin_is_tty) || (files.len() == 1 && files[0] == "-"@) <==> plan_of(
            files,
            stdin_is_tty,
            follow,
        ) == Some(Plan::Stdin),
        files.len() == 1 && files[0] != "-"@ && !follow <==> plan_of(files, stdin_is_tty, follow)
            == Some(Plan::File),
        files.len() == 1 && files[0] != "-"@ && follow <==> plan_of(files, stdin_is_tty, follow)
            == Some(Plan::Follow),
        files.len() > 1 && !files.contains("-"@) <==> plan_of(files, stdin_is_tty, follow) == Some(
            Plan::Merge,
        ),
{
}

/// A compressed file is read as a stream, a JSON array of up to 64 MiB is
/// flattened, a larger one refused, and any other file is read by lines.
pub proof fn law_files_are_read_by_what_they_start_with(head: Seq<u8>, size: u64)
    ensures
        intake_of(head, size) == Intake::Stream <==> Compression::of_magic(head)
            != Compression::Plain,
        Compression::of_magic(head) == Compression::Plain ==> {
            &&& intake_of(head, size) == Intake::Lines <==> !json_array::is_json_array(head)
            &&& intake_of(head, size) == Intake::Array <==> json_array::is_json_array(head) && size
                <= 64 * 1_024 * 1_024
            &&& intake_of(head, size) == Intake::OversizeArray <==> json_array::is_json_array(head)
                && size > 64 * 1_024 * 1_024
        },
{
}

/// The lines of the end of a probe are those of that end alone.
proof fn lemma_probe_moved(b: Seq<u8>, rest: Seq<u8>, i: int, by: int, n: int)
    requires
        0 <= by,
        0 <= i <= rest.len(),
        b.len() == by + rest.len(),
        forall|k: int| 0 <= k < rest.len() ==> #[trigger] rest[k] == b[k + by],
    ensures
        probe_lines(b, i + by, n) == probe_lines(rest, i, n),
    decreases n,
{
    let class = ByteClass::Except('\n' as u8);
    if n > 0 {
        scan::lemma_run_end(rest, i, class);
        let e = scan::run_end(rest, i, class);
        assert forall|k: int| i + by <= k < e + by implies class.has(#[trigger] b[k]) by {
            assert(class.has(rest[k - by]));
        }
        if e < rest.len() {
            assert(rest[e] == b[e + by]);
        }
        scan::lemma_run_end_at(b, i + by, e + by, class);
        assert(b.subrange(i + by, e + by) =~= rest.subrange(i, e));
        if e < rest.len() {
            lemma_probe_moved(b, rest, e + 1, by, n - 1);
        }
    }
}

/// A probe is read line by line, whichever of the two line ends a line has,
/// and an empty line has no vote but is counted.
pub proof fn law_probe_is_read_by_lines(line: Seq<u8>, rest: Seq<u8>, n: int)
    requires
        n > 0,
        !line.contains('\n' as u8),
        line.len() > 0 ==> line.last() != '\r' as u8,
    ensures
        line.len() > 0 ==> probe_lines(line + seq!['\n' as u8] + rest, 0, n) == seq![line]
            + probe_lines(rest, 0, n - 1),
        line.len() > 0 ==> probe_lines(line + seq!['\r' as u8, '\n' as u8] + rest, 0, n)
            == seq![line] + probe_lines(rest, 0, n - 1),
        line.len() == 0 ==> probe_lines(line + seq!['\n' as u8] + rest, 0, n) == probe_lines(
            rest,
            0,
            n - 1,
        ),
        probe_lines(rest, 0, 0).len() == 0,
{
    lemma_probe_line(line, line, rest, n);
    let ended = line + seq!['\r' as u8];
    assert forall|k: int| 0 <= k < ended.len() implies #[trigger] ended[k] != '\n' as u8 by {
        if k < line.len() {
            assert(line.contains(line[k]));
        }
    }
    assert(ended.drop_last() =~= line);
    lemma_probe_line(ended, line, rest, n);
    assert(ended + seq!['\n' as u8] + rest =~= line + seq!['\r' as u8, '\n' as u8] + rest);
}

/// The first line of a probe.
proof fn lemma_probe_line(ended: Seq<u8>, line: Seq<u8>, rest: Seq<u8>, n: int)
    requires
        n > 0,
        !ended.contains('\n' as u8),
        without_return(ended) == line,
    ensures
        probe_lines(ended + seq!['\n' as u8] + rest, 0, n) == (if line.len() > 0 {
            seq![line]
        } else {
            Seq::empty()
        }) + probe_lines(rest, 0, n - 1),
{
    let class = ByteClass::Except('\n' as u8);
    let b = ended + seq!['\n' as u8] + rest;
    assert forall|k: int| 0 <= k < ended.len() implies class.has(#[trigger] b[k]) by {
        assert(ended.contains(ended[k]));
    }
    assert(b[ended.len() as int] == '\n' as u8);
    scan::lemma_run_end_at(b, 0, ended.len() as int, class);
    assert(b.subrange(0, ended.len() as int) =~= ended);
    lemma_probe_moved(b, rest, 0, ended.len() as int + 1, n - 1);
    assert(Seq::<Seq<u8>>::empty() + probe_lines(rest, 0, n - 1) =~= probe_lines(rest, 0, n - 1));
}

/// Files are named with a comma between; one that is followed says so, and
/// what comes in through the pipe has a name of its own.
pub proof fn law_sources_are_named(files: Seq<Seq<char>>, file: Seq<char>)
    ensures
        label_of(Plan::File, seq![file]) == file,
        label_of(Plan::Follow, seq![file]) == file + " (follow)"@,
        files.len() > 0 ==> label_of(Plan::Merge, files.push(file)) == label_of(Plan::Merge, files)
            + seq![',', ' '] + file,
        label_of(Plan::Merge, seq![file]) == file,
        label_of(Plan::Stdin, files) == "<stdin>"@,
{
    reveal_strlit(", ");
    assert(", "@ =~= seq![',', ' ']);
    assert(files.push(file).drop_last() =~= files);
}

/// A probe without a line has no verdict. Any other has that of its first
/// sixty-four lines.
pub proof fn law_probe_decides_by_its_lines(b: Seq<u8>)
    ensures
        probe_verdict(b) is None <==> probe_lines(b, 0, 64).len() == 0,
        probe_verdict(b) is Some ==> probe_verdict(b)->0 == crate::engine::format::verdict(
            probe_lines(b, 0, 64),
        ),
{
}

/// A dry run lists the first eight columns that the table would pick.
pub proof fn law_dry_run_lists_the_columns(engine: Engine)
    ensures
        engine.schema matches Some(s) ==> listed_columns(engine) == schema::picked_columns(s, 8),
        engine.schema is None ==> listed_columns(engine).len() == 0,
{
}

} // verus!

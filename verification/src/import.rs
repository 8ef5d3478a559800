//! Drafting an app configuration from a project directory: a compose file,
//! a `package.json` with scripts, or a `Procfile` with a `web:` process.
//!
//! The caller looks at the directory; this module decides what the draft
//! holds.

use vstd::prelude::*;
use crate::schema::{
    AppConfig, CommandSpec, Commands, HealthConfig, HealthKind, Ports, RestartPolicy, StartCommands,
    byte_len, id_problem, is_id_char, is_lower_or_digit,
};
use crate::text::{
    chars_of, decimal_string, decimal_text, find_piece_with_prefix, first_piece_with_prefix,
    has_prefix, listed, string_from_chars, texts, trim_chars, trim_spec,
};

verus! {

/// An ASCII letter or digit.
pub open spec fn is_ascii_alnum(c: char) -> bool {
    ('0' <= c && c <= '9') || ('a' <= c && c <= 'z') || ('A' <= c && c <= 'Z')
}

/// The ASCII lower-case form of `c`; other characters are unchanged.
pub open spec fn ascii_lower(c: char) -> char {
    if 'A' <= c && c <= 'Z' {
        ((c as int) + 32) as char
    } else {
        c
    }
}

/// The character an id keeps for `c`: a lower-cased ASCII letter or digit,
/// else a hyphen.
pub open spec fn slug_char(c: char) -> char {
    if is_ascii_alnum(c) {
        ascii_lower(c)
    } else {
        '-'
    }
}

/// `s` without the copies of `c` at its start.
pub open spec fn strip_leading(s: Seq<char>, c: char) -> Seq<char>
    decreases s.len(),
{
    if s.len() > 0 && s[0] == c {
        strip_leading(s.drop_first(), c)
    } else {
        s
    }
}

/// `s` without the copies of `c` at its end.
pub open spec fn strip_trailing(s: Seq<char>, c: char) -> Seq<char>
    decreases s.len(),
{
    if s.len() > 0 && s.last() == c {
        strip_trailing(s.drop_last(), c)
    } else {
        s
    }
}

/// The id drafted from a directory name: each character mapped by
/// `slug_char`, hyphens trimmed from both ends, `app` when nothing is left
/// or the name is unknown.
pub open spec fn draft_id_spec(name: Option<Seq<char>>) -> Seq<char> {
    let base = match name {
        Some(n) => n,
        None => "app"@,
    };
    let slug = strip_trailing(strip_leading(base.map_values(|c: char| slug_char(c)), '-'), '-');
    if slug.len() == 0 {
        "app"@
    } else {
        slug
    }
}

/// A character that a drafted id may hold.
pub open spec fn is_slug_char(c: char) -> bool {
    ('a' <= c && c <= 'z') || ('0' <= c && c <= '9') || c == '-'
}

proof fn lemma_strip_leading_shape(s: Seq<char>, c: char)
    ensures
        exists|k: int| 0 <= k <= s.len() && #[trigger] s.skip(k) == strip_leading(s, c),
        strip_leading(s, c).len() > 0 ==> strip_leading(s, c)[0] != c,
    decreases s.len(),
{
    if s.len() > 0 && s[0] == c {
        lemma_strip_leading_shape(s.drop_first(), c);
        let k = choose|k: int| 0 <= k <= s.drop_first().len() && #[trigger] s.drop_first().skip(k)
            == strip_leading(s.drop_first(), c);
        assert(s.skip(k + 1) =~= s.drop_first().skip(k));
    } else {
        assert(s.skip(0) =~= s);
    }
}

proof fn lemma_strip_trailing_shape(s: Seq<char>, c: char)
    requires
        s.len() > 0 ==> s[0] != c,
    ensures
        exists|k: int| 0 <= k <= s.len() && #[trigger] s.take(k) == strip_trailing(s, c),
        s.len() > 0 ==> strip_trailing(s, c).len() > 0,
    decreases s.len(),
{
    if s.len() > 0 && s.last() == c {
        lemma_strip_trailing_shape(s.drop_last(), c);
        let k = choose|k: int| 0 <= k <= s.drop_last().len() && #[trigger] s.drop_last().take(k)
            == strip_trailing(s.drop_last(), c);
        assert(s.take(k) =~= s.drop_last().take(k));
    } else {
        assert(s.take(s.len() as int) =~= s);
    }
}

proof fn lemma_ascii_byte_len(s: Seq<char>)
    requires
        forall|i: int| 0 <= i < s.len() ==> (#[trigger] s[i] as u32) < 0x80,
    ensures
        byte_len(s) == s.len(),
    decreases s.len(),
{
    if s.len() > 0 {
        lemma_ascii_byte_len(s.drop_last());
        assert((s.last() as u32) < 0x80) by {
            assert(s.last() == s[s.len() - 1]);
        }
    }
}

/// A drafted id passes the id rule whenever it is at most 128 characters
/// long: it is made of lower-case letters, digits and inner hyphens, and
/// starts with a letter or digit.
pub proof fn lemma_draft_id_valid(name: Option<Seq<char>>)
    ensures
        draft_id_spec(name).len() > 0,
        forall|i: int| 0 <= i < draft_id_spec(name).len() ==> is_slug_char(#[trigger] draft_id_spec(name)[i]),
        draft_id_spec(name).len() <= 128 ==> id_problem(draft_id_spec(name)) is None,
{
    reveal_strlit("app");
    let base = match name {
        Some(n) => n,
        None => "app"@,
    };
    let mapped = base.map_values(|c: char| slug_char(c));
    assert forall|i: int| 0 <= i < mapped.len() implies is_slug_char(#[trigger] mapped[i]) by {
        let c = base[i];
        assert(mapped[i] == slug_char(c));
    }
    lemma_strip_leading_shape(mapped, '-');
    let lead = strip_leading(mapped, '-');
    let k = choose|k: int| 0 <= k <= mapped.len() && #[trigger] mapped.skip(k) == lead;
    assert forall|i: int| 0 <= i < lead.len() implies is_slug_char(#[trigger] lead[i]) by {
        assert(lead[i] == mapped[k + i]);
    }
    lemma_strip_trailing_shape(lead, '-');
    let slug = strip_trailing(lead, '-');
    let j = choose|j: int| 0 <= j <= lead.len() && #[trigger] lead.take(j) == slug;
    assert forall|i: int| 0 <= i < slug.len() implies is_slug_char(#[trigger] slug[i]) by {
        assert(slug[i] == lead[i]);
    }
    let id = draft_id_spec(name);
    assert forall|i: int| 0 <= i < id.len() implies is_slug_char(#[trigger] id[i]) by {
        if slug.len() == 0 {
            assert(id == "app"@);
        } else {
            assert(id == slug);
        }
    }
    if slug.len() > 0 {
        assert(slug[0] == lead[0]);
        assert(slug[0] != '-');
    }
    assert(is_lower_or_digit(id[0]));
    assert forall|i: int| 0 <= i < id.len() implies (#[trigger] id[i] as u32) < 0x80 by {
        assert(is_slug_char(id[i]));
    }
    lemma_ascii_byte_len(id);
    assert forall|i: int| 1 <= i < id.len() implies is_id_char(#[trigger] id[i]) by {
        assert(is_slug_char(id[i]));
    }
}

fn slug_of(c: char) -> (r: char)
    ensures
        r == slug_char(c),
{
    if 'A' <= c && c <= 'Z' {
        let v: u32 = c as u32 + 32;
        let b: u8 = v as u8;
        b as char
    } else if ('a' <= c && c <= 'z') || ('0' <= c && c <= '9') {
        c
    } else {
        '-'
    }
}

proof fn lemma_strip_leading_index(s: Seq<char>, c: char, k: int)
    requires
        0 <= k <= s.len(),
        forall|i: int| 0 <= i < k ==> s[i] == c,
        k == s.len() || s[k] != c,
    ensures
        strip_leading(s, c) == s.skip(k),
    decreases k,
{
    if k > 0 {
        lemma_strip_leading_index(s.drop_first(), c, k - 1);
        assert(s.drop_first().skip(k - 1) =~= s.skip(k));
    } else {
        assert(s.skip(0) =~= s);
    }
}

proof fn lemma_strip_trailing_index(s: Seq<char>, c: char, k: int)
    requires
        0 <= k <= s.len(),
        forall|i: int| k <= i < s.len() ==> s[i] == c,
        k == 0 || s[k - 1] != c,
    ensures
        strip_trailing(s, c) == s.take(k),
    decreases s.len() - k,
{
    if k < s.len() {
        lemma_strip_trailing_index(s.drop_last(), c, k);
        assert(s.drop_last().take(k) =~= s.take(k));
    } else {
        assert(s.take(k) =~= s);
    }
}

/// Removes copies of `c` from both ends of `v`.
fn trim_char(v: &Vec<char>, c: char) -> (r: Vec<char>)
    ensures
        r@ == strip_trailing(strip_leading(v@, c), c),
{
    let n = v.len();
    let mut a: usize = 0;
    while a < n && v[a] == c
        invariant
            n == v@.len(),
            a <= n,
            forall|i: int| 0 <= i < a ==> v@[i] == c,
        decreases n - a,
    {
        a = a + 1;
    }
    proof {
        lemma_strip_leading_index(v@, c, a as int);
    }
    let ghost lead = v@.skip(a as int);
    let mut b: usize = n;
    while b > a && v[b - 1] == c
        invariant
            n == v@.len(),
            a <= b <= n,
            forall|i: int| b <= i < n ==> v@[i] == c,
        decreases b,
    {
        b = b - 1;
    }
    proof {
        assert forall|i: int| (b - a) <= i < lead.len() implies lead[i] == c by {
            assert(lead[i] == v@[a + i]);
        }
        if b > a {
            assert(lead[b - a - 1] == v@[b - 1]);
        }
        lemma_strip_trailing_index(lead, c, b - a);
    }
    let mut r: Vec<char> = Vec::new();
    let mut j = a;
    while j < b
        invariant
            n == v@.len(),
            a <= j <= b <= n,
            r@ == v@.subrange(a as int, j as int),
        decreases b - j,
    {
        r.push(v[j]);
        assert(v@.subrange(a as int, j + 1) =~= v@.subrange(a as int, j as int).push(v@[j as int]));
        j = j + 1;
    }
    assert(lead.take(b - a) =~= v@.subrange(a as int, b as int));
    r
}

/// The id for a project in the directory called `name` (`None` when the
/// name is unknown or not valid Unicode).
pub fn draft_id(name: Option<&str>) -> (r: String)
    ensures
        r@ == draft_id_spec(
            match name {
                Some(n) => Some(n@),
                None => None,
            },
        ),
{
    let base = match name {
        Some(n) => chars_of(n),
        None => chars_of("app"),
    };
    let n = base.len();
    let mut mapped: Vec<char> = Vec::new();
    for i in 0..n
        invariant
            n == base@.len(),
            mapped@ == base@.take(i as int).map_values(|c: char| slug_char(c)),
    {
        mapped.push(slug_of(base[i]));
        assert(base@.take(i + 1).map_values(|c: char| slug_char(c)) =~= base@.take(i as int).map_values(
            |c: char| slug_char(c),
        ).push(slug_char(base@[i as int])));
    }
    assert(base@.take(n as int) =~= base@);
    let slug = trim_char(&mapped, '-');
    if slug.len() == 0 {
        "app".to_owned()
    } else {
        string_from_chars(&slug)
    }
}

/// The first line of `text` that starts with `web:`. Lines are the pieces
/// between newlines; a carriage return before a newline stays in its line
/// (the command taken from it is trimmed, which removes it).
pub open spec fn web_line(text: Seq<char>) -> Option<Seq<char>> {
    first_piece_with_prefix(text, '\n', "web:"@)
}

/// `s` without every leading copy of the non-empty `p`.
pub open spec fn strip_prefixes(s: Seq<char>, p: Seq<char>) -> Seq<char>
    decreases s.len(),
{
    if p.len() > 0 && has_prefix(s, p) {
        strip_prefixes(s.skip(p.len() as int), p)
    } else {
        s
    }
}

/// The command of the `web` process of a `Procfile`.
pub open spec fn web_command_spec(text: Seq<char>) -> Option<Seq<char>> {
    match web_line(text) {
        Some(l) => Some(trim_spec(strip_prefixes(l, "web:"@))),
        None => None,
    }
}

/// Removes every leading copy of the non-empty `p` from `v`.
fn strip_prefixes_chars(v: &Vec<char>, p: &Vec<char>) -> (r: Vec<char>)
    requires
        p@.len() > 0,
    ensures
        r@ == strip_prefixes(v@, p@),
{
    let n = v.len();
    let k = p.len();
    let mut a: usize = 0;
    assert(v@.skip(0) =~= v@);
    while k <= n - a && chars_have_prefix_at(v, p, a)
        invariant
            n == v@.len(),
            k == p@.len(),
            k > 0,
            a <= n,
            strip_prefixes(v@, p@) == strip_prefixes(v@.skip(a as int), p@),
        decreases n - a,
    {
        proof {
            assert(v@.skip(a as int).skip(k as int) =~= v@.skip(a + k));
        }
        a = a + k;
    }
    assert(!has_prefix(v@.skip(a as int), p@));
    let mut r: Vec<char> = Vec::new();
    let mut j = a;
    while j < n
        invariant
            n == v@.len(),
            a <= j <= n,
            r@ == v@.subrange(a as int, j as int),
        decreases n - j,
    {
        r.push(v[j]);
        assert(v@.subrange(a as int, j + 1) =~= v@.subrange(a as int, j as int).push(v@[j as int]));
        j = j + 1;
    }
    assert(v@.subrange(a as int, n as int) =~= v@.skip(a as int));
    r
}

/// Whether `p` occurs in `v` at position `at`, as a prefix of `v.skip(at)`.
fn chars_have_prefix_at(v: &Vec<char>, p: &Vec<char>, at: usize) -> (r: bool)
    requires
        at <= v@.len(),
    ensures
        r == has_prefix(v@.skip(at as int), p@),
{
    let n = v.len();
    let k = p.len();
    if k > n - at {
        return false;
    }
    let mut i: usize = 0;
    while i < k
        invariant
            n == v@.len(),
            k == p@.len(),
            at + k <= n,
            i <= k,
            forall|j: int| 0 <= j < i ==> v@[at + j] == p@[j],
        decreases k - i,
    {
        if v[at + i] != p[i] {
            assert(v@.skip(at as int).take(k as int)[i as int] != p@[i as int]);
            return false;
        }
        i = i + 1;
    }
    assert(v@.skip(at as int).take(k as int) =~= p@);
    true
}

/// The command of the `web` process in a `Procfile`'s text, if it has one.
pub fn web_command(text: &str) -> (r: Option<String>)
    ensures
        match web_command_spec(text@) {
            Some(c) => r matches Some(s) && s@ == c,
            None => r is None,
        },
{
    let t = chars_of(text);
    let web = chars_of("web:");
    proof {
        reveal_strlit("web:");
    }
    match find_piece_with_prefix(&t, '\n', &web) {
        Some(line) => {
            let stripped = strip_prefixes_chars(&line, &web);
            let cmd = trim_chars(&stripped);
            Some(string_from_chars(&cmd))
        },
        None => None,
    }
}

/// A plain command line: run directly, no working directory or environment
/// of its own.
pub open spec fn is_plain(c: CommandSpec, words: Seq<Seq<char>>) -> bool {
    c.argv@.map_values(|w: String| w@) == words && c.cwd is None && c.env is None && !c.shell
}

/// What every draft holds: id and name from the directory, a note on where
/// it came from, the `imported` tag, the given primary port, and defaults
/// elsewhere; the commands, health check and address are set per source.
pub open spec fn is_base_draft(app: AppConfig, id: Seq<char>, root: Seq<char>, port: Option<u16>) -> bool {
    &&& app.id@ == id
    &&& app.name@ == id
    &&& app.description matches Some(d) && d@ == "Imported from "@ + root
    &&& app.icon is None
    &&& app.root@ == root
    &&& app.tags matches Some(t) && t@.map_values(|s: String| s@) == seq!["imported"@]
    &&& app.commands.clean is None
    &&& app.commands.deploy is None
    &&& app.env is None
    &&& app.env_files is None
    &&& app.ports == match port {
        Some(p) => Some(Ports { primary: Some(p), extra: None }),
        None => None,
    }
    &&& app.depends_on@.len() == 0
    &&& app.restart == RestartPolicy::OnFailure
    &&& app.expose is None
    &&& app.resources is None
}

/// The loopback address of `port`, as drafts write it.
pub open spec fn loopback_url(port: u16) -> Seq<char> {
    "http://127.0.0.1:"@ + decimal_text(port as nat) + "/"@
}

fn plain(words: Vec<String>) -> (c: CommandSpec)
    ensures
        c.argv == words,
        c.cwd is None,
        c.env is None,
        !c.shell,
{
    CommandSpec { argv: words, cwd: None, env: None, shell: false }
}

fn base(id: &str, root: &str, start: CommandSpec, stop: Option<CommandSpec>, port: Option<u16>) -> (app:
    AppConfig)
    ensures
        is_base_draft(app, id@, root@, port),
        app.commands.start.development == start,
        app.commands.stop == stop,
        app.commands.install is None,
        app.commands.build is None,
        app.commands.start.production is None,
        app.health is None,
        match port {
            Some(p) => app.open_url matches Some(u) && u@ == loopback_url(p),
            None => app.open_url is None,
        },
{
    let mut tags: Vec<String> = Vec::new();
    tags.push("imported".to_owned());
    assert(tags@.map_values(|s: String| s@) =~= seq!["imported"@]);
    let ports = match port {
        Some(p) => Some(Ports { primary: Some(p), extra: None }),
        None => None,
    };
    let open_url = match port {
        Some(p) => {
            let digits = decimal_string(p);
            Some("http://127.0.0.1:".to_owned().concat(digits.as_str()).concat("/"))
        },
        None => None,
    };
    AppConfig {
        id: id.to_owned(),
        name: id.to_owned(),
        description: Some("Imported from ".to_owned().concat(root)),
        icon: None,
        root: root.to_owned(),
        tags: Some(tags),
        commands: Commands {
            install: None,
            clean: None,
            build: None,
            start: StartCommands { development: start, production: None },
            deploy: None,
            stop,
        },
        env: None,
        env_files: None,
        ports,
        open_url,
        health: None,
        depends_on: Vec::new(),
        restart: RestartPolicy::OnFailure,
        expose: None,
        resources: None,
    }
}

/// A drafted configuration and the file it was drafted from.
#[derive(Debug)]
pub struct ImportDraft {
    pub app: AppConfig,
    pub source: String,
}

/// The draft for a compose project: `docker compose up` to start,
/// `docker compose down` to stop.
pub open spec fn is_compose_draft(app: AppConfig, id: Seq<char>, root: Seq<char>) -> bool {
    &&& is_base_draft(app, id, root, None)
    &&& is_plain(app.commands.start.development, seq!["docker"@, "compose"@, "up"@])
    &&& app.commands.stop matches Some(s) && is_plain(s, seq!["docker"@, "compose"@, "down"@])
    &&& app.commands.install is None
    &&& app.commands.build is None
    &&& app.commands.start.production is None
    &&& app.health is None
    &&& app.open_url is None
}

fn compose_draft(id: &str, root: &str, source: &str) -> (d: ImportDraft)
    ensures
        is_compose_draft(d.app, id@, root@),
        d.source@ == source@,
{
    let up = vec!["docker".to_owned(), "compose".to_owned(), "up".to_owned()];
    let down = vec!["docker".to_owned(), "compose".to_owned(), "down".to_owned()];
    assert(up@.map_values(|w: String| w@) =~= seq!["docker"@, "compose"@, "up"@]);
    assert(down@.map_values(|w: String| w@) =~= seq!["docker"@, "compose"@, "down"@]);
    ImportDraft { app: base(id, root, plain(up), Some(plain(down)), None), source: source.to_owned() }
}

/// The draft for a `Procfile` whose web process runs `command`: a shell
/// command on port 5000.
pub open spec fn is_procfile_draft(app: AppConfig, id: Seq<char>, root: Seq<char>, command: Seq<char>) -> bool {
    &&& is_base_draft(app, id, root, Some(5000))
    &&& app.commands.start.development.argv@.map_values(|w: String| w@) == seq![command]
    &&& app.commands.start.development.cwd is None
    &&& app.commands.start.development.env is None
    &&& app.commands.start.development.shell
    &&& app.commands.stop is None
    &&& app.commands.install is None
    &&& app.commands.build is None
    &&& app.commands.start.production is None
    &&& app.health is None
    &&& app.open_url matches Some(u) && u@ == loopback_url(5000)
}

fn procfile_draft(id: &str, root: &str, command: String) -> (d: ImportDraft)
    ensures
        is_procfile_draft(d.app, id@, root@, command@),
        d.source@ == "Procfile"@,
{
    let ghost c = command@;
    let argv = vec![command];
    assert(argv@.map_values(|w: String| w@) =~= seq![c]);
    let start = CommandSpec { argv, cwd: None, env: None, shell: true };
    ImportDraft { app: base(id, root, start, None, Some(5000)), source: "Procfile".to_owned() }
}


/// The script a `package.json` draft starts in development: `dev`, else
/// `start:dev`, else `develop`, else `start`; none when it has none of them.
pub open spec fn dev_script(scripts: Seq<Seq<char>>) -> Option<Seq<char>> {
    if scripts.contains("dev"@) {
        Some("dev"@)
    } else if scripts.contains("start:dev"@) {
        Some("start:dev"@)
    } else if scripts.contains("develop"@) {
        Some("develop"@)
    } else if scripts.contains("start"@) {
        Some("start"@)
    } else {
        None
    }
}

/// The draft for a node project with `scripts`, started in development with
/// `npm run <dev>`: installs with `npm install`, builds with `npm run build`
/// and starts in production with `npm run start` when those scripts exist,
/// is probed over HTTP on port 3000 and opened at its port.
pub open spec fn is_npm_draft(
    app: AppConfig,
    id: Seq<char>,
    root: Seq<char>,
    scripts: Seq<Seq<char>>,
    dev: Seq<char>,
) -> bool {
    &&& is_base_draft(app, id, root, Some(3000))
    &&& is_plain(app.commands.start.development, seq!["npm"@, "run"@, dev])
    &&& app.commands.stop is None
    &&& app.commands.install matches Some(i) && is_plain(i, seq!["npm"@, "install"@])
    &&& if scripts.contains("build"@) {
        app.commands.build matches Some(b) && is_plain(b, seq!["npm"@, "run"@, "build"@])
    } else {
        app.commands.build is None
    }
    &&& if scripts.contains("start"@) {
        app.commands.start.production matches Some(p) && is_plain(p, seq!["npm"@, "run"@, "start"@])
    } else {
        app.commands.start.production is None
    }
    &&& app.health matches Some(h) && h.kind == HealthKind::Http && h.target@
        == "http://127.0.0.1:3000/"@ && h.interval_ms == 5000 && h.timeout_ms == 2000
        && h.healthy_threshold == 1 && h.unhealthy_threshold == 3
    &&& app.open_url matches Some(u) && u@ == "http://127.0.0.1:{port}/"@
}

fn npm_command(a: &str, b: &str) -> (c: CommandSpec)
    ensures
        is_plain(c, seq!["npm"@, a@, b@]),
{
    let w = vec!["npm".to_owned(), a.to_owned(), b.to_owned()];
    assert(w@.map_values(|x: String| x@) =~= seq!["npm"@, a@, b@]);
    plain(w)
}

/// The draft for a node project whose `package.json` lists `scripts`; none
/// when no script can start it in development.
pub fn npm_draft(id: &str, root: &str, scripts: &Vec<String>) -> (r: Option<ImportDraft>)
    ensures
        match dev_script(texts(scripts@)) {
            None => r is None,
            Some(dev) => r matches Some(d) && d.source@ == "package.json"@ && is_npm_draft(
                d.app,
                id@,
                root@,
                texts(scripts@),
                dev,
            ),
        },
{
    let dev = if listed(scripts, "dev") {
        "dev"
    } else if listed(scripts, "start:dev") {
        "start:dev"
    } else if listed(scripts, "develop") {
        "develop"
    } else if listed(scripts, "start") {
        "start"
    } else {
        return None;
    };
    let build = if listed(scripts, "build") {
        Some(npm_command("run", "build"))
    } else {
        None
    };
    let production = if listed(scripts, "start") {
        Some(npm_command("run", "start"))
    } else {
        None
    };
    let mut app = base(id, root, npm_command("run", dev), None, Some(3000));
    let install = vec!["npm".to_owned(), "install".to_owned()];
    assert(install@.map_values(|x: String| x@) =~= seq!["npm"@, "install"@]);
    app.commands.install = Some(plain(install));
    app.commands.build = build;
    app.commands.start.production = production;
    app.health = Some(
        HealthConfig {
            kind: HealthKind::Http,
            target: "http://127.0.0.1:3000/".to_owned(),
            interval_ms: 5000,
            timeout_ms: 2000,
            healthy_threshold: 1,
            unhealthy_threshold: 3,
        },
    );
    app.open_url = Some("http://127.0.0.1:{port}/".to_owned());
    Some(ImportDraft { app, source: "package.json".to_owned() })
}

/// The script names of a `package.json` text, as `serde_json` reads them:
/// the keys of its `scripts` object; none when the text is not JSON or has
/// no such object.
pub uninterp spec fn package_scripts(text: Seq<char>) -> Option<Seq<Seq<char>>>;

/// Reads the `scripts` keys of a `package.json` text with `serde_json`
/// (`from_str`, then the `scripts` field as an object); the outcome is
/// `package_scripts` of the text.
#[verifier::external_body]
fn read_package_scripts(text: &str) -> (r: Option<Vec<String>>)
    ensures
        match r {
            Some(v) => package_scripts(text@) == Some(texts(v@)),
            None => package_scripts(text@) is None,
        },
{
    let v: serde_json::Value = serde_json::from_str(text).ok()?;
    let scripts = v.get("scripts")?.as_object()?;
    Some(scripts.keys().cloned().collect())
}

/// What the caller found for one file of the project.
#[derive(Debug)]
pub enum FileText {
    Absent,
    Unreadable,
    Text(String),
}

/// The files of a project directory that a draft can come from.
#[derive(Debug)]
pub struct ProjectFiles {
    /// `docker-compose.yml` exists.
    pub docker_compose_yml: bool,
    /// `compose.yaml` exists.
    pub compose_yaml: bool,
    pub package_json: FileText,
    pub procfile: FileText,
}

/// The draft for a project: from a compose file first, else from
/// `package.json`, else from a `Procfile`; none when the chosen file cannot
/// be read or gives nothing to start.
pub open spec fn draft_matches(
    r: Option<ImportDraft>,
    id: Seq<char>,
    root: Seq<char>,
    files: ProjectFiles,
) -> bool {
    if files.docker_compose_yml || files.compose_yaml {
        r matches Some(d) && d.source@ == (if files.docker_compose_yml {
            "docker-compose.yml"@
        } else {
            "compose.yaml"@
        }) && is_compose_draft(d.app, id, root)
    } else {
        match files.package_json {
            FileText::Unreadable => r is None,
            FileText::Text(t) => match package_scripts(t@) {
                None => r is None,
                Some(s) => match dev_script(s) {
                    None => r is None,
                    Some(dev) => r matches Some(d) && d.source@ == "package.json"@ && is_npm_draft(
                        d.app,
                        id,
                        root,
                        s,
                        dev,
                    ),
                },
            },
            FileText::Absent => match files.procfile {
                FileText::Text(t) => match web_command_spec(t@) {
                    Some(c) => r matches Some(d) && d.source@ == "Procfile"@ && is_procfile_draft(
                        d.app,
                        id,
                        root,
                        c,
                    ),
                    None => r is None,
                },
                _ => r is None,
            },
        }
    }
}

/// Drafts a configuration with id `id` for the project at `root`.
pub fn draft_project(id: &str, root: &str, files: &ProjectFiles) -> (r: Option<ImportDraft>)
    ensures
        draft_matches(r, id@, root@, *files),
{
    if files.docker_compose_yml || files.compose_yaml {
        let source = if files.docker_compose_yml {
            "docker-compose.yml"
        } else {
            "compose.yaml"
        };
        return Some(compose_draft(id, root, source));
    }
    match &files.package_json {
        FileText::Unreadable => None,
        FileText::Text(t) => match read_package_scripts(t.as_str()) {
            None => None,
            Some(scripts) => npm_draft(id, root, &scripts),
        },
        FileText::Absent => match &files.procfile {
            FileText::Text(t) => match web_command(t.as_str()) {
                Some(c) => Some(procfile_draft(id, root, c)),
                None => None,
            },
            _ => None,
        },
    }
}


/// The development scripts a draft looks for, most preferred first.
pub open spec fn dev_preferences() -> Seq<Seq<char>> {
    seq!["dev"@, "start:dev"@, "develop"@, "start"@]
}

/// Law (choice of the development script): the script chosen is one the
/// project has, and it is the first of `dev`, `start:dev`, `develop`,
/// `start` that the project has; `start` is chosen only when none of the
/// others is present, and none is chosen only when none of the four is.
pub proof fn lemma_dev_script_choice(scripts: Seq<Seq<char>>)
    ensures
        dev_script(scripts) matches Some(d) ==> scripts.contains(d) && exists|k: int|
            0 <= k < 4 && #[trigger] dev_preferences()[k] == d && forall|j: int|
                0 <= j < k ==> !scripts.contains(dev_preferences()[j]),
        dev_script(scripts) == Some("start"@) ==> !scripts.contains("dev"@) && !scripts.contains(
            "start:dev"@,
        ) && !scripts.contains("develop"@),
        (dev_script(scripts) is None) == (forall|k: int|
            0 <= k < 4 ==> !scripts.contains(#[trigger] dev_preferences()[k])),
        scripts.contains("start:dev"@) && !scripts.contains("dev"@) ==> dev_script(scripts) == Some(
            "start:dev"@,
        ),
{
    reveal_strlit("dev");
    reveal_strlit("start:dev");
    reveal_strlit("develop");
    reveal_strlit("start");
    let p = dev_preferences();
    if scripts.contains("dev"@) {
        assert(p[0] == "dev"@);
    } else if scripts.contains("start:dev"@) {
        assert(p[1] == "start:dev"@);
        assert(p[0] == "dev"@);
    } else if scripts.contains("develop"@) {
        assert(p[2] == "develop"@);
        assert(p[0] == "dev"@ && p[1] == "start:dev"@);
    } else if scripts.contains("start"@) {
        assert(p[3] == "start"@);
        assert(p[0] == "dev"@ && p[1] == "start:dev"@ && p[2] == "develop"@);
    } else {
        assert forall|k: int| 0 <= k < 4 implies !scripts.contains(#[trigger] p[k]) by {
            assert(p[0] == "dev"@ && p[1] == "start:dev"@ && p[2] == "develop"@ && p[3] == "start"@);
        }
    }
    if dev_script(scripts) is None {
    } else {
        assert(p[0] == "dev"@ && p[1] == "start:dev"@ && p[2] == "develop"@ && p[3] == "start"@);
    }
}

} // verus!

use vstd::prelude::*;
use vstd::string::StrSliceExecFns;
use crate::error::Error;

verus! {

/// What the daemon knows of a managed server: the fields of its YAML file
/// and where that file is.
pub struct ServerConfig {
    /// Name under which the daemon serves it; letters, digits, `-` and `_`.
    pub id: String,
    /// Name shown to people.
    pub name: String,
    /// The server's jar, relative to `pwd`.
    pub jarfile: String,
    /// The server's working directory.
    pub pwd: String,
    /// Arguments for the Java virtual machine, separated by single spaces.
    pub jvm_args: String,
    /// The YAML file that describes the server.
    pub yaml_path: String,
}

/// A character that a server id may hold: an ASCII letter or digit, `-` or `_`.
pub open spec fn is_id_char(c: char) -> bool {
    ||| ('0' <= c && c <= '9')
    ||| ('A' <= c && c <= 'Z')
    ||| ('a' <= c && c <= 'z')
    ||| c == '-'
    ||| c == '_'
}

/// A valid server id: not empty, and made only of the characters that ids
/// may hold.
pub open spec fn is_valid_id(id: Seq<char>) -> bool {
    &&& id.len() > 0
    &&& forall|i: int| 0 <= i < id.len() ==> is_id_char(#[trigger] id[i])
}

/// The regular expression that a server id must match as a whole.
pub open spec fn id_pattern() -> Seq<char> {
    "^[0-9A-Za-z\\-_]+$"@
}

/// What `regex::Regex::new(pattern)` followed by `is_match(haystack)`
/// gives: `None` where the pattern does not compile, else whether the
/// expression matches anywhere in the haystack.
pub uninterp spec fn regex_search(pattern: Seq<char>, haystack: Seq<char>) -> Option<bool>;

/// Compiles `pattern` with `regex::Regex::new` and, where it compiles, asks
/// `Regex::is_match` whether it matches anywhere in `haystack`. Of the id
/// pattern (one or more of the id characters, anchored at the start and the
/// end of the text) the crate's documentation and syntax give that it
/// compiles and that it matches exactly where the whole haystack is one or
/// more id characters; of other patterns only the name `regex_search` is
/// claimed.
#[verifier::external_body]
fn regex_is_match(pattern: &str, haystack: &str) -> (r: Option<bool>)
    ensures
        r == regex_search(pattern@, haystack@),
        pattern@ == id_pattern() ==> r == Some(is_valid_id(haystack@)),
{
    match regex::Regex::new(pattern) {
        Ok(re) => Some(re.is_match(haystack)),
        Err(_) => None,
    }
}

/// Splits `s` at each space, as `str::split(" ")`: `n` spaces give `n + 1`
/// pieces, empty where spaces follow each other or stand at an end.
pub open spec fn split_spaces(s: Seq<char>) -> Seq<Seq<char>>
    decreases s.len(),
{
    if s.len() == 0 {
        seq![Seq::<char>::empty()]
    } else if s.last() == ' ' {
        split_spaces(s.drop_last()).push(Seq::<char>::empty())
    } else {
        let pieces = split_spaces(s.drop_last());
        pieces.update(pieces.len() - 1, pieces.last().push(s.last()))
    }
}

/// The pieces joined with one space between each two.
pub open spec fn join_with_spaces(pieces: Seq<Seq<char>>) -> Seq<char>
    decreases pieces.len(),
{
    if pieces.len() == 0 {
        Seq::empty()
    } else if pieces.len() == 1 {
        pieces[0]
    } else {
        join_with_spaces(pieces.drop_last()) + seq![' '] + pieces.last()
    }
}

/// Splitting at spaces loses nothing and cuts only at spaces: no piece
/// holds a space, and joining the pieces with single spaces gives back the
/// text.
pub proof fn lemma_split_spaces_joins_back(s: Seq<char>)
    ensures
        split_spaces(s).len() >= 1,
        forall|i: int|
            0 <= i < split_spaces(s).len() ==> !(#[trigger] split_spaces(s)[i]).contains(' '),
        join_with_spaces(split_spaces(s)) == s,
    decreases s.len(),
{
    if s.len() == 0 {
        assert(!Seq::<char>::empty().contains(' '));
    } else {
        let init = s.drop_last();
        lemma_split_spaces_joins_back(init);
        let p = split_spaces(init);
        let c = s.last();
        if c == ' ' {
            let q = p.push(Seq::<char>::empty());
            assert(q.drop_last() =~= p);
            assert(!Seq::<char>::empty().contains(' '));
            assert forall|i: int| 0 <= i < q.len() implies !(#[trigger] q[i]).contains(' ') by {
                if i < p.len() {
                    assert(q[i] == p[i]);
                }
            }
            assert(init + seq![' '] + Seq::<char>::empty() =~= s);
        } else {
            let last = p.last().push(c);
            let q = p.update(p.len() - 1, last);
            assert(!last.contains(' ')) by {
                assert(!p[p.len() - 1].contains(' '));
                if last.contains(' ') {
                    let j = choose|j: int| 0 <= j < last.len() && last[j] == ' ';
                    if j < p.last().len() {
                        assert(p.last()[j] == ' ');
                    }
                }
            }
            assert forall|i: int| 0 <= i < q.len() implies !(#[trigger] q[i]).contains(' ') by {
                if i < p.len() - 1 {
                    assert(q[i] == p[i]);
                }
            }
            if p.len() == 1 {
                assert(join_with_spaces(p) == p[0]);
                assert(q[0] =~= s);
            } else {
                assert(q.drop_last() =~= p.drop_last());
                assert(join_with_spaces(p) == join_with_spaces(p.drop_last()) + seq![' '] + p.last());
                assert(join_with_spaces(q) =~= join_with_spaces(p).push(c));
                assert(init.push(c) =~= s);
            }
        }
    }
}

/// The arguments that `java` is started with: the JVM arguments split at
/// spaces (none where they are empty), then `-jar` and the jar file.
pub open spec fn java_args(jvm_args: Seq<char>, jarfile: Seq<char>) -> Seq<Seq<char>> {
    (if jvm_args.len() == 0 {
        Seq::<Seq<char>>::empty()
    } else {
        split_spaces(jvm_args)
    }) + seq!["-jar"@, jarfile]
}

/// The characters of each string.
pub open spec fn texts(v: Seq<String>) -> Seq<Seq<char>> {
    v.map_values(|s: String| s@)
}

/// Splits `s` at each space, as `str::split(" ")` does.
pub fn split_at_spaces(s: &str) -> (pieces: Vec<String>)
    ensures
        texts(pieces@) == split_spaces(s@),
        pieces@.len() >= 1,
        forall|i: int| 0 <= i < pieces@.len() ==> !(#[trigger] pieces@[i])@.contains(' '),
        join_with_spaces(texts(pieces@)) == s@,
{
    let n = s.unicode_len();
    let mut pieces: Vec<String> = Vec::new();
    let mut start: usize = 0;
    let mut i: usize = 0;
    assert(s@.take(0) =~= Seq::<char>::empty());
    assert(s@.subrange(0, 0) =~= Seq::<char>::empty());
    assert(texts(pieces@).push(s@.subrange(0, 0)) =~= seq![Seq::<char>::empty()]);
    while i < n
        invariant
            n == s@.len(),
            start <= i <= n,
            split_spaces(s@.take(i as int)) == texts(pieces@).push(s@.subrange(start as int, i as int)),
        decreases n - i,
    {
        let c = s.get_char(i);
        let ghost before = s@.take(i as int);
        assert(s@.take(i + 1).drop_last() =~= before);
        assert(s@.take(i + 1).last() == c);
        if c == ' ' {
            let piece = s.substring_char(start, i).to_owned();
            let ghost old_pieces = texts(pieces@);
            pieces.push(piece);
            assert(texts(pieces@) =~= old_pieces.push(s@.subrange(start as int, i as int)));
            start = i + 1;
            assert(s@.subrange(start as int, start as int) =~= Seq::<char>::empty());
        } else {
            assert(s@.subrange(start as int, i + 1) =~= s@.subrange(start as int, i as int).push(c));
            assert(texts(pieces@).push(s@.subrange(start as int, i + 1)) =~= texts(pieces@).push(
                s@.subrange(start as int, i as int),
            ).update(texts(pieces@).len() as int, s@.subrange(start as int, i as int).push(c)));
        }
        i = i + 1;
    }
    let last = s.substring_char(start, n).to_owned();
    let ghost old_pieces = texts(pieces@);
    pieces.push(last);
    assert(texts(pieces@) =~= old_pieces.push(s@.subrange(start as int, n as int)));
    assert(s@.take(n as int) =~= s@);
    proof {
        lemma_split_spaces_joins_back(s@);
        assert forall|i: int| 0 <= i < pieces@.len() implies !(#[trigger] pieces@[i])@.contains(
            ' ',
        ) by {
            assert(texts(pieces@)[i] == pieces@[i]@);
        }
    }
    pieces
}

/// How to launch a server process.
pub struct LaunchPlan {
    /// The program to run.
    pub program: String,
    /// Its arguments.
    pub args: Vec<String>,
    /// The directory to run it in.
    pub working_dir: String,
    /// How long to wait before checking that the process is still alive.
    pub settle_millis: u64,
}

/// How long to wait after a kill signal before looking again.
pub open spec fn kill_grace_millis() -> u64 {
    1000
}

/// After a kill signal: the process is gone, or it is given time.
#[derive(Debug, PartialEq, Eq, Structural)]
pub enum AfterKill {
    /// The process has ended.
    Stopped,
    /// The process still runs: wait this many milliseconds, then look again.
    WaitMillis(u64),
}

impl ServerConfig {
    /// Checks that the server's description makes sense: that its working
    /// directory exists and is a directory, that its jar file in that
    /// directory and its YAML file exist (as told by the caller, in that
    /// order), and that its id is not empty and uses only ASCII letters,
    /// digits, `-` and `_`. The first check that fails gives the error.
    pub fn verify(&self, pwd_is_dir: bool, jarfile_exists: bool, yaml_exists: bool) -> (r: Result<
        (),
        Error,
    >)
        ensures
            !pwd_is_dir ==> (r matches Err(Error::VerificationError(m))
                && m@ == "Server directory does not exist."@),
            pwd_is_dir && !jarfile_exists ==> (r matches Err(Error::VerificationError(m))
                && m@ == "Provided jarfile does not exist."@),
            pwd_is_dir && jarfile_exists && !yaml_exists ==> (r matches Err(
                Error::VerificationError(m),
            ) && m@ == "Backing YAML file does not exist."@),
            pwd_is_dir && jarfile_exists && yaml_exists && !is_valid_id(self.id@) ==> (r matches Err(
                Error::VerificationError(m),
            ) && m@ == "ID uses invalid characters."@),
            pwd_is_dir && jarfile_exists && yaml_exists && is_valid_id(self.id@) ==> r is Ok,
    {
        if !pwd_is_dir {
            return Err(Error::VerificationError("Server directory does not exist."));
        }
        if !jarfile_exists {
            return Err(Error::VerificationError("Provided jarfile does not exist."));
        }
        if !yaml_exists {
            return Err(Error::VerificationError("Backing YAML file does not exist."));
        }
        let found = regex_is_match("^[0-9A-Za-z\\-_]+$", self.id.as_str());
        match found {
            Some(true) => Ok(()),
            _ => Err(Error::VerificationError("ID uses invalid characters.")),
        }
    }

    /// The Java arguments the server is started with: its JVM arguments split
    /// at spaces (none where they are empty), then `-jar` and its jar file.
    pub fn launch_args(&self) -> (args: Vec<String>)
        ensures
            texts(args@) == java_args(self.jvm_args@, self.jarfile@),
            args@.len() >= 2,
            args@[args@.len() - 2]@ == "-jar"@,
            args@[args@.len() - 1]@ == self.jarfile@,
            self.jvm_args@.len() == 0 ==> args@.len() == 2,
            self.jvm_args@.len() > 0 ==> join_with_spaces(texts(args@).take(args@.len() - 2))
                == self.jvm_args@,
            self.jvm_args@.len() > 0 ==> forall|i: int|
                0 <= i < args@.len() - 2 ==> !(#[trigger] args@[i])@.contains(' '),
    {
        let mut args: Vec<String> = if self.jvm_args.as_str().is_empty() {
            Vec::new()
        } else {
            split_at_spaces(self.jvm_args.as_str())
        };
        let ghost first = texts(args@);
        assert(first == (if self.jvm_args@.len() == 0 {
            Seq::<Seq<char>>::empty()
        } else {
            split_spaces(self.jvm_args@)
        })) by {
            if self.jvm_args@.len() == 0 {
                assert(texts(args@) =~= Seq::<Seq<char>>::empty());
            }
        }
        args.push("-jar".to_owned());
        args.push(self.jarfile.clone());
        assert(texts(args@) =~= first + seq!["-jar"@, self.jarfile@]);
        proof {
            lemma_split_spaces_joins_back(self.jvm_args@);
            assert(texts(args@).take(args@.len() - 2) =~= first);
            assert(texts(args@)[args@.len() - 2] == args@[args@.len() - 2]@);
            assert(texts(args@)[args@.len() - 1] == args@[args@.len() - 1]@);
            if self.jvm_args@.len() > 0 {
                assert forall|i: int| 0 <= i < args@.len() - 2 implies !(#[trigger] args@[i])@.contains(
                    ' ',
                ) by {
                    assert(texts(args@)[i] == args@[i]@);
                    assert(first[i] == split_spaces(self.jvm_args@)[i]);
                }
            }
        }
        args
    }

    /// The first step of starting the server: refused where it already runs,
    /// else the plan to launch `java` with `launch_args` in the server's
    /// working directory and to look again after 200 milliseconds.
    pub fn plan_start(&self, running: bool) -> (r: Result<LaunchPlan, Error>)
        ensures
            running ==> (r matches Err(Error::SubprocessError(m)) && m@
                == "Server is already running"@),
            !running ==> (r matches Ok(plan) && plan.program@ == "java"@ && texts(plan.args@)
                == java_args(self.jvm_args@, self.jarfile@) && plan.working_dir@ == self.pwd@
                && plan.settle_millis == 200),
    {
        if running {
            return Err(Error::SubprocessError("Server is already running"));
        }
        Ok(
            LaunchPlan {
                program: "java".to_owned(),
                args: self.launch_args(),
                working_dir: self.pwd.clone(),
                settle_millis: 200,
            },
        )
    }
}

/// The end of starting a server, from whether the process could be spawned
/// and, if so, whether it was still alive after the settling time.
pub fn start_outcome(spawned: bool, alive_after_settle: bool) -> (r: Result<(), Error>)
    ensures
        !spawned ==> (r matches Err(Error::SubprocessError(m)) && m@
            == "Error spawning child process"@),
        spawned && !alive_after_settle ==> (r matches Err(Error::SubprocessError(m)) && m@
            == "Server died prematurely: "@),
        spawned && alive_after_settle ==> r is Ok,
{
    if !spawned {
        return Err(Error::SubprocessError("Error spawning child process"));
    }
    if !alive_after_settle {
        return Err(Error::SubprocessError("Server died prematurely: "));
    }
    Ok(())
}

/// The first step of stopping a server: refused where it does not run;
/// `Ok` means send it a kill signal.
pub fn plan_stop(running: bool) -> (r: Result<(), Error>)
    ensures
        !running ==> (r matches Err(Error::SubprocessError(m)) && m@
            == "Server is not currently running"@),
        running ==> r is Ok,
{
    if !running {
        return Err(Error::SubprocessError("Server is not currently running"));
    }
    Ok(())
}

/// After the kill signal: done where the process is gone, else wait a
/// second before looking again.
pub fn after_kill(still_alive: bool) -> (r: AfterKill)
    ensures
        r == (if still_alive {
            AfterKill::WaitMillis(kill_grace_millis())
        } else {
            AfterKill::Stopped
        }),
{
    if still_alive {
        AfterKill::WaitMillis(1000)
    } else {
        AfterKill::Stopped
    }
}

/// After the grace period: a process that still runs did not respond to
/// the kill signal.
pub fn after_kill_grace(still_alive: bool) -> (r: Result<(), Error>)
    ensures
        still_alive ==> (r matches Err(Error::SubprocessError(m)) && m@
            == "Child is not responding to kill signal."@),
        !still_alive ==> r is Ok,
{
    if still_alive {
        return Err(Error::SubprocessError("Child is not responding to kill signal."));
    }
    Ok(())
}

/// Whether a directory entry holds a server description: a file, not a
/// directory, whose extension is `yaml`.
pub fn is_server_file(is_dir: bool, extension: Option<&str>) -> (r: bool)
    ensures
        r == (!is_dir && (extension matches Some(e) && e@ == "yaml"@)),
{
    if is_dir {
        return false;
    }
    match extension {
        Some(e) => crate::text::same_text(e, "yaml"),
        None => false,
    }
}

} // verus!

//! Handlers that run a program for every request.

use vstd::prelude::*;
use vstd::utf8::encode_utf8;

use crate::cgi::{output_makes, parse_cgi_response, CgiError};
use crate::error::SiteError;
use crate::headers::{field_views, header_fields, header_list, value_text, visible_text};
use crate::manifest::Serve;
use crate::number::{decimal, decimal_text, law_number_is_written, worth};
use crate::path::joined;
use crate::process::{invocation, program_directory, working_place, Invocation};
use crate::reply::Reply;
use crate::request::RequestHead;
use crate::resolver::ResolvedSite;
use crate::text::{string_views, to_upper_char, upper_char};

verus! {

/// A character of a field name in the name of a variable.
pub open spec fn variable_char(c: char) -> char {
    if c == '-' {
        '_'
    } else {
        upper_char(c)
    }
}

/// The variable that holds the field `name`.
pub open spec fn header_variable(name: Seq<char>) -> Seq<char> {
    "HTTP_"@ + name.map_values(|c: char| variable_char(c))
}

/// The variable that holds the field `name`.
pub fn header_variable_name(name: &str) -> (variable: String)
    ensures
        variable@ == header_variable(name@),
{
    let mut variable = "HTTP_".to_string();
    let ghost front = "HTTP_"@;
    let ghost whole = name@.map_values(|c: char| variable_char(c));
    assert(variable@ =~= front + whole.take(0));
    for c in iter: name.chars()
        invariant
            whole == name@.map_values(|c: char| variable_char(c)),
            iter.seq() == name@,
            variable@ == front + whole.take(iter.index() as int),
    {
        let mark = if c == '-' {
            '_'
        } else {
            to_upper_char(c)
        };
        let ghost before = variable@;
        variable.push(mark);
        proof {
            assert(whole[iter.index() as int] == mark);
            assert(variable@ =~= front + whole.take(iter.index() + 1));
        }
    }
    assert(whole.take(whole.len() as int) =~= whole);
    variable
}

/// An environment with a variable for every field whose value is text.
pub open spec fn with_fields(
    environment: Map<Seq<char>, Seq<char>>,
    fields: Seq<(Seq<char>, Seq<u8>)>,
) -> Map<Seq<char>, Seq<char>>
    decreases fields.len(),
{
    if fields.len() == 0 {
        environment
    } else {
        let before = with_fields(environment, fields.drop_last());
        match value_text(fields.last().1) {
            Some(text) => before.insert(header_variable(fields.last().0), text),
            None => before,
        }
    }
}

/// The variables of the program that answers a request: those of the manifest,
/// those that describe the request, and those of its header fields. A later one
/// replaces an earlier one.
pub open spec fn request_variables(
    environment: Map<Seq<char>, Seq<char>>,
    request: RequestHead,
    domain: Seq<char>,
    body_length: nat,
) -> Map<Seq<char>, Seq<char>> {
    with_fields(
        environment.insert("REQUEST_METHOD"@, request.method@).insert(
            "REQUEST_PATH"@,
            request.path@,
        ).insert("QUERY_STRING"@, request.query_text()).insert("HTTP_HOST"@, domain).insert(
            "CONTENT_LENGTH"@,
            decimal_text(body_length),
        ),
        header_fields(request.headers),
    )
}

/// Whether `run` is how the program of `site` is run for a request.
pub open spec fn answers_by(
    site: ResolvedSite,
    request: RequestHead,
    body_length: nat,
    run: Result<Invocation, SiteError>,
) -> bool {
    match site.manifest.serve {
        Serve::Stdio { command, environment, working_directory, .. } => run matches Ok(made)
            && made.runs(
            string_views(command@),
            working_place(site.directory@, working_directory),
            request_variables(environment@, request, site.domain@, body_length),
        ),
        _ => run == Err::<Invocation, _>(SiteError::NotStdio),
    }
}

/// How the program of a site is run for a request with a body of so many bytes.
pub fn run_stdio(site: &ResolvedSite, request: &RequestHead, body_length: usize) -> (run: Result<
    Invocation,
    SiteError,
>)
    requires
        site.manifest.serve is Stdio ==> site.manifest.serve.runnable(),
    ensures
        answers_by(*site, *request, body_length as nat, run),
{
    match &site.manifest.serve {
        Serve::Stdio { command, environment, working_directory, .. } => {
            let place = program_directory(&site.directory, working_directory);
            let mut variables = environment.copy().with(
                "REQUEST_METHOD".to_string(),
                request.method.clone(),
            ).with("REQUEST_PATH".to_string(), request.path.clone()).with(
                "QUERY_STRING".to_string(),
                request.query_or_empty(),
            ).with("HTTP_HOST".to_string(), site.domain.clone()).with(
                "CONTENT_LENGTH".to_string(),
                decimal(body_length as u64),
            );
            let ghost base = variables@;
            let fields = header_list(&request.headers);
            let ghost all = header_fields(request.headers);
            assert(all.take(0) =~= Seq::empty());
            let mut i: usize = 0;
            while i < fields.len()
                invariant
                    i <= fields@.len(),
                    field_views(fields@) == all,
                    variables@ == with_fields(base, all.take(i as int)),
                decreases fields@.len() - i,
            {
                proof {
                    assert(field_views(fields@)[i as int] == (
                        fields@[i as int].0@,
                        fields@[i as int].1@,
                    ));
                    assert(all.take(i + 1).drop_last() =~= all.take(i as int));
                    assert(all.take(i + 1).last() == all[i as int]);
                }
                if let Some(text) = visible_text(fields[i].1.as_slice()) {
                    let variable = header_variable_name(fields[i].0.as_str());
                    variables = variables.with(variable, text);
                }
                i = i + 1;
            }
            assert(all.take(i as int) =~= all);
            Ok(invocation(command, place, variables))
        },
        _ => Err(SiteError::NotStdio),
    }
}

/// How many bytes of the output of a program are read: one more than it may
/// write.
pub fn output_cap(limit: usize) -> (bytes: u64)
    ensures
        bytes == if limit == usize::MAX {
            limit as int
        } else {
            limit + 1
        },
        bytes >= limit,
        limit < usize::MAX ==> bytes > limit,
{
    limit.saturating_add(1) as u64
}

/// How the program for a request ended.
#[derive(Debug)]
pub enum StdioEnd {
    /// It took too long.
    TimedOut,
    /// It exited.
    Exited {
        /// Whether it succeeded.
        success: bool,
        /// How its end is shown.
        status: String,
        /// What it wrote.
        output: Vec<u8>,
    },
}

/// What is done once the program for a request has ended, or taken too long.
#[derive(Debug)]
pub enum StdioStep {
    /// The request is answered, or fails.
    Answer(Result<Reply, SiteError>),
    /// The process group of the program is stopped, and the request fails.
    Terminate {
        /// The time that the process group is given to end.
        grace_seconds: u64,
        /// The error.
        error: SiteError,
    },
}

/// What is done once the program for a request has ended like this.
pub open spec fn ends_in(end: StdioEnd, limit: usize, step: StdioStep) -> bool {
    match end {
        StdioEnd::TimedOut => step == (StdioStep::Terminate {
            grace_seconds: 1,
            error: SiteError::StdioTimedOut,
        }),
        StdioEnd::Exited { success, status, output } => if !success {
            step == StdioStep::Answer(Err::<Reply, _>(SiteError::StdioExited { status }))
        } else if output@.len() > limit {
            step == StdioStep::Answer(Err::<Reply, _>(SiteError::StdioOutput))
        } else {
            step matches StdioStep::Answer(reply) && cgi_outcome(output@, reply)
        },
    }
}

/// The reply in an output, or the error of one that holds none.
pub open spec fn cgi_outcome(output: Seq<u8>, reply: Result<Reply, SiteError>) -> bool {
    match reply {
        Ok(made) => output_makes(output, Ok::<Reply, CgiError>(made)),
        Err(SiteError::Cgi(error)) => output_makes(output, Err::<Reply, CgiError>(error)),
        Err(_) => false,
    }
}

/// The reply in an output, or the error of one that holds none.
pub fn cgi_reply(output: &[u8]) -> (reply: Result<Reply, SiteError>)
    ensures
        cgi_outcome(output@, reply),
{
    match parse_cgi_response(output) {
        Ok(reply) => Ok(reply),
        Err(error) => Err(SiteError::Cgi(error)),
    }
}

/// What is done once the program for a request has ended like this. To be
/// answered, it must have succeeded and have written no more than `limit` bytes.
/// A program that takes too long is stopped, with one second of grace.
pub fn finish_stdio(end: StdioEnd, limit: usize) -> (step: StdioStep)
    ensures
        ends_in(end, limit, step),
{
    match end {
        StdioEnd::TimedOut => StdioStep::Terminate {
            grace_seconds: 1,
            error: SiteError::StdioTimedOut,
        },
        StdioEnd::Exited { success, status, output } => {
            if !success {
                return StdioStep::Answer(Err(SiteError::StdioExited { status }));
            }
            if output.len() > limit {
                return StdioStep::Answer(Err(SiteError::StdioOutput));
            }
            StdioStep::Answer(cgi_reply(output.as_slice()))
        },
    }
}

/// As much of an output as is read tells whether the program wrote too much.
pub proof fn law_cap_tells_excess(limit: usize, cap: u64, written: nat, read: nat)
    requires
        limit < usize::MAX,
        cap == limit + 1,
        read == if written < cap {
            written
        } else {
            cap as nat
        },
    ensures
        read > limit <==> written > limit,
        written <= limit ==> read == written,
{
}

/// The variable of a field has its name behind `HTTP_`: the letters in upper
/// case, an underscore for every hyphen, and everything else as it is.
pub proof fn law_variable_of_field(name: Seq<char>)
    ensures
        header_variable(name).len() == name.len() + 5,
        header_variable(name).take(5) == "HTTP_"@,
        forall|i: int|
            0 <= i < name.len() ==> {
                let c = #[trigger] name[i];
                let mark = header_variable(name)[i + 5];
                &&& c == '-' ==> mark == '_'
                &&& 'a' <= c <= 'z' ==> mark as int == c as int - 32
                &&& c != '-' && !('a' <= c <= 'z') ==> mark == c
            },
{
    reveal_strlit("HTTP_");
    let whole = name.map_values(|c: char| variable_char(c));
    let variable = header_variable(name);
    assert(variable.take(5) =~= "HTTP_"@);
    assert forall|i: int| 0 <= i < name.len() implies ({
        let c = #[trigger] name[i];
        let mark = variable[i + 5];
        &&& c == '-' ==> mark == '_'
        &&& 'a' <= c <= 'z' ==> mark as int == c as int - 32
        &&& c != '-' && !('a' <= c <= 'z') ==> mark == c
    }) by {
        assert(variable[i + 5] == whole[i]);
    }
}

/// A name that is not that of a field's variable.
pub open spec fn not_of_field(name: Seq<char>) -> bool {
    !"HTTP_"@.is_prefix_of(name)
}

/// Whether a field sets a variable: it is the one of its name, and its value is
/// text.
pub open spec fn sets_variable(field: (Seq<char>, Seq<u8>), name: Seq<char>) -> bool {
    header_variable(field.0) == name && value_text(field.1) is Some
}

/// A variable that no field sets is as it was.
pub proof fn law_unset_variable_stays(
    environment: Map<Seq<char>, Seq<char>>,
    fields: Seq<(Seq<char>, Seq<u8>)>,
    name: Seq<char>,
)
    requires
        forall|i: int| 0 <= i < fields.len() ==> !sets_variable(#[trigger] fields[i], name),
    ensures
        with_fields(environment, fields).dom().contains(name) <==> environment.dom().contains(name),
        with_fields(environment, fields)[name] == environment[name],
    decreases fields.len(),
{
    if fields.len() > 0 {
        let less = fields.drop_last();
        assert(!sets_variable(fields[fields.len() - 1], name));
        assert forall|i: int| 0 <= i < less.len() implies !sets_variable(
            #[trigger] less[i],
            name,
        ) by {
            assert(less[i] == fields[i]);
        }
        law_unset_variable_stays(environment, less, name);
    }
}

/// The last field that sets a variable gives it its text.
pub proof fn law_last_field_sets_variable(
    environment: Map<Seq<char>, Seq<char>>,
    before: Seq<(Seq<char>, Seq<u8>)>,
    field: (Seq<char>, Seq<u8>),
    after: Seq<(Seq<char>, Seq<u8>)>,
)
    requires
        value_text(field.1) is Some,
        forall|i: int|
            0 <= i < after.len() ==> !sets_variable(#[trigger] after[i], header_variable(field.0)),
    ensures
        with_fields(environment, before.push(field) + after).dom().contains(
            header_variable(field.0),
        ),
        Some(with_fields(environment, before.push(field) + after)[header_variable(field.0)])
            == value_text(field.1),
    decreases after.len(),
{
    let all = before.push(field) + after;
    if after.len() == 0 {
        assert(all =~= before.push(field));
        assert(all.last() == field);
    } else {
        let less = after.drop_last();
        assert(!sets_variable(after[after.len() - 1], header_variable(field.0)));
        assert forall|i: int| 0 <= i < less.len() implies !sets_variable(
            #[trigger] less[i],
            header_variable(field.0),
        ) by {
            assert(less[i] == after[i]);
        }
        law_last_field_sets_variable(environment, before, field, less);
        assert(all.drop_last() =~= before.push(field) + less);
        assert(all.last() == after.last());
    }
}

proof fn lemma_not_of_field(name: Seq<char>, field: Seq<char>)
    requires
        not_of_field(name),
    ensures
        header_variable(field) != name,
{
    law_variable_of_field(field);
    reveal_strlit("HTTP_");
    if header_variable(field) == name {
        assert("HTTP_"@ =~= name.subrange(0, 5));
    }
}

proof fn lemma_own_names()
    ensures
        not_of_field("REQUEST_METHOD"@),
        not_of_field("REQUEST_PATH"@),
        not_of_field("QUERY_STRING"@),
        not_of_field("CONTENT_LENGTH"@),
        "REQUEST_METHOD"@ != "REQUEST_PATH"@,
        "REQUEST_METHOD"@ != "QUERY_STRING"@,
        "REQUEST_METHOD"@ != "CONTENT_LENGTH"@,
        "REQUEST_PATH"@ != "QUERY_STRING"@,
        "REQUEST_PATH"@ != "CONTENT_LENGTH"@,
        "QUERY_STRING"@ != "CONTENT_LENGTH"@,
        "HTTP_HOST"@ != "REQUEST_METHOD"@,
        "HTTP_HOST"@ != "REQUEST_PATH"@,
        "HTTP_HOST"@ != "QUERY_STRING"@,
        "HTTP_HOST"@ != "CONTENT_LENGTH"@,
{
    reveal_strlit("HTTP_");
    reveal_strlit("HTTP_HOST");
    reveal_strlit("REQUEST_METHOD");
    reveal_strlit("REQUEST_PATH");
    reveal_strlit("QUERY_STRING");
    reveal_strlit("CONTENT_LENGTH");
    assert("HTTP_"@[0] == 'H');
    assert("REQUEST_METHOD"@[0] == 'R' && "REQUEST_PATH"@[0] == 'R');
    assert("REQUEST_METHOD"@[8] == 'M' && "REQUEST_PATH"@[8] == 'P');
    assert("QUERY_STRING"@[0] == 'Q' && "CONTENT_LENGTH"@[0] == 'C');
    assert("HTTP_HOST"@[0] == 'H');
}

/// The program for a request is told its method, its path, its query and the
/// number of bytes in its body, in decimal, whatever the fields of the request
/// and the manifest say of these variables.
pub proof fn law_program_is_told_of_request(
    environment: Map<Seq<char>, Seq<char>>,
    request: RequestHead,
    domain: Seq<char>,
    body_length: nat,
)
    ensures
        ({
            let variables = request_variables(environment, request, domain, body_length);
            &&& variables.dom().contains("REQUEST_METHOD"@) && variables["REQUEST_METHOD"@]
                == request.method@
            &&& variables.dom().contains("REQUEST_PATH"@) && variables["REQUEST_PATH"@]
                == request.path@
            &&& variables.dom().contains("QUERY_STRING"@)
            &&& request.query matches Some(query) ==> variables["QUERY_STRING"@] == query@
            &&& request.query is None ==> variables["QUERY_STRING"@].len() == 0
            &&& variables.dom().contains("CONTENT_LENGTH"@)
            &&& variables["CONTENT_LENGTH"@] == decimal_text(body_length)
            &&& worth(variables["CONTENT_LENGTH"@], 10) == body_length
        }),
{
    let fields = header_fields(request.headers);
    let base = environment.insert("REQUEST_METHOD"@, request.method@).insert(
        "REQUEST_PATH"@,
        request.path@,
    ).insert("QUERY_STRING"@, request.query_text()).insert("HTTP_HOST"@, domain).insert(
        "CONTENT_LENGTH"@,
        decimal_text(body_length),
    );
    lemma_own_names();
    lemma_fields_leave(base, fields, "REQUEST_METHOD"@);
    lemma_fields_leave(base, fields, "REQUEST_PATH"@);
    lemma_fields_leave(base, fields, "QUERY_STRING"@);
    lemma_fields_leave(base, fields, "CONTENT_LENGTH"@);
    law_number_is_written(body_length, 10);
}

proof fn lemma_fields_leave(
    environment: Map<Seq<char>, Seq<char>>,
    fields: Seq<(Seq<char>, Seq<u8>)>,
    name: Seq<char>,
)
    requires
        not_of_field(name),
    ensures
        with_fields(environment, fields).dom().contains(name) <==> environment.dom().contains(name),
        with_fields(environment, fields)[name] == environment[name],
{
    assert forall|i: int| 0 <= i < fields.len() implies !sets_variable(#[trigger] fields[i], name) by {
        lemma_not_of_field(name, fields[i].0);
    }
    law_unset_variable_stays(environment, fields, name);
}

/// Every other variable of the manifest is kept, unless a field of the request
/// sets it; and the host name is in the variable of the field `host` where the
/// request has no such field.
pub proof fn law_other_variables_are_kept(
    environment: Map<Seq<char>, Seq<char>>,
    request: RequestHead,
    domain: Seq<char>,
    body_length: nat,
    name: Seq<char>,
)
    requires
        name != "REQUEST_METHOD"@ && name != "REQUEST_PATH"@ && name != "QUERY_STRING"@ && name
            != "CONTENT_LENGTH"@,
        forall|i: int|
            0 <= i < header_fields(request.headers).len() ==> !sets_variable(
                #[trigger] header_fields(request.headers)[i],
                name,
            ),
    ensures
        ({
            let variables = request_variables(environment, request, domain, body_length);
            &&& name == "HTTP_HOST"@ ==> variables.dom().contains(name) && variables[name] == domain
            &&& name != "HTTP_HOST"@ ==> (variables.dom().contains(name)
                <==> environment.dom().contains(name)) && variables[name] == environment[name]
        }),
{
    let base = environment.insert("REQUEST_METHOD"@, request.method@).insert(
        "REQUEST_PATH"@,
        request.path@,
    ).insert("QUERY_STRING"@, request.query_text()).insert("HTTP_HOST"@, domain).insert(
        "CONTENT_LENGTH"@,
        decimal_text(body_length),
    );
    lemma_own_names();
    law_unset_variable_stays(base, header_fields(request.headers), name);
}

/// A field of the request that holds text is handed on in its variable: of several
/// with the same variable, the last.
pub proof fn law_field_is_handed_on(
    environment: Map<Seq<char>, Seq<char>>,
    request: RequestHead,
    domain: Seq<char>,
    body_length: nat,
    index: int,
)
    requires
        0 <= index < header_fields(request.headers).len(),
        value_text(header_fields(request.headers)[index].1) is Some,
        forall|i: int|
            index < i < header_fields(request.headers).len() ==> !sets_variable(
                #[trigger] header_fields(request.headers)[i],
                header_variable(header_fields(request.headers)[index].0),
            ),
    ensures
        ({
            let variables = request_variables(environment, request, domain, body_length);
            let field = header_fields(request.headers)[index];
            &&& variables.dom().contains(header_variable(field.0))
            &&& Some(variables[header_variable(field.0)]) == value_text(field.1)
        }),
{
    let fields = header_fields(request.headers);
    let base = environment.insert("REQUEST_METHOD"@, request.method@).insert(
        "REQUEST_PATH"@,
        request.path@,
    ).insert("QUERY_STRING"@, request.query_text()).insert("HTTP_HOST"@, domain).insert(
        "CONTENT_LENGTH"@,
        decimal_text(body_length),
    );
    let after = fields.skip(index + 1);
    assert forall|i: int| 0 <= i < after.len() implies !sets_variable(
        #[trigger] after[i],
        header_variable(fields[index].0),
    ) by {
        assert(after[i] == fields[index + 1 + i]);
    }
    law_last_field_sets_variable(base, fields.take(index), fields[index], after);
    assert(fields =~= fields.take(index).push(fields[index]) + after);
}

/// The program runs its command as the manifest has it, in the directory of the
/// site or in the one that the manifest names from there, with the variables of
/// the request.
pub proof fn law_program_runs_its_command(
    site: ResolvedSite,
    request: RequestHead,
    body_length: nat,
    run: Result<Invocation, SiteError>,
)
    requires
        answers_by(site, request, body_length, run),
    ensures
        site.manifest.serve matches Serve::Stdio {
            command,
            environment,
            working_directory,
            ..
        } ==> {
            &&& run matches Ok(made)
            &&& made.program@ == command@[0]@
            &&& made.arguments@.len() == command@.len() - 1
            &&& forall|i: int|
                0 <= i < made.arguments@.len() ==> (#[trigger] made.arguments@[i])@ == command@[i
                    + 1]@
            &&& working_directory is None ==> made.directory@ == site.directory@
            &&& working_directory matches Some(inner) ==> made.directory@ == joined(
                site.directory@,
                encode_utf8(inner@),
            )
            &&& made.environment@ == request_variables(
                environment@,
                request,
                site.domain@,
                body_length,
            )
        },
        !(site.manifest.serve is Stdio) ==> run == Err::<Invocation, _>(SiteError::NotStdio),
{
    if let Serve::Stdio { command, environment, working_directory, .. } = site.manifest.serve {
        let made = run->Ok_0;
        let all = string_views(command@);
        assert(all.len() == command@.len());
        assert(all[0] == command@[0]@);
        assert(string_views(made.arguments@).len() == made.arguments@.len());
        assert forall|i: int| 0 <= i < made.arguments@.len() implies (#[trigger] made.arguments@[i])@
            == command@[i + 1]@ by {
            assert(string_views(made.arguments@)[i] == all.skip(1)[i]);
            assert(all[i + 1] == command@[i + 1]@);
        }
    }
}

/// A program that took too long is stopped with one second of grace. One that
/// failed, and one that wrote more than it may, is an error; any other is
/// answered with what it wrote, also where it wrote just as much as it may.
pub proof fn law_end_of_program(end: StdioEnd, limit: usize, step: StdioStep)
    requires
        ends_in(end, limit, step),
    ensures
        end is TimedOut <==> step is Terminate,
        step matches StdioStep::Terminate { grace_seconds, error } ==> grace_seconds == 1 && error
            is StdioTimedOut,
        end matches StdioEnd::Exited { success, status, output } ==> {
            &&& step matches StdioStep::Answer(reply)
            &&& !success ==> reply == Err::<Reply, _>(SiteError::StdioExited { status })
            &&& success && output@.len() > limit ==> reply == Err::<Reply, _>(
                SiteError::StdioOutput,
            )
            &&& success && output@.len() <= limit ==> {
                &&& reply matches Ok(made) ==> output_makes(output@, Ok::<Reply, CgiError>(made))
                &&& reply matches Err(error) ==> (error matches SiteError::Cgi(inner)
                    && output_makes(output@, Err::<Reply, CgiError>(inner)))
            }
        },
{
}

} // verus!

//! Turns one JVM request into the two requests that nailgun needs: one that
//! boots a resident server and one that runs the client against it.

use crate::digest::{empty_digest, empty_digest_view};
use crate::nailgun_pool::Port;
use crate::request::{
    with_binding, Env, ExecuteProcessRequest, PathSet, Platform, RequestView, Timeout,
};
use crate::text;
use vstd::prelude::*;

verus! {

/// The main class of the nailgun server.
pub const NAILGUN_MAIN_CLASS: &'static str = "com.martiansoftware.nailgun.NGServer";

/// The argument that makes the server listen on any free port.
pub const ARG_TO_START_NAILGUN: &'static str = ":0";

/// The variable through which the client learns the server's port.
pub const NAILGUN_PORT_ENV_VAR_FOR_CLIENT: &'static str = "NAILGUN_PORT";

/// Where the nailgun client binary lives, relative to the working directory.
pub const NG_CLIENT_PATH: &'static str = "bin/ng/1.0.0/ng";

/// How long a server may take to start, in seconds.
pub const SERVER_START_TIMEOUT_SECS: u64 = 1000;

/// The request that boots a nailgun server: the JVM arguments, then the
/// server's main class, then the argument that lets it pick a port. It reads
/// and writes no declared files and carries the JDK it runs on.
pub open spec fn server_request(
    nailgun_name: Seq<char>,
    args_for_the_jvm: Seq<Seq<char>>,
    jdk: Seq<char>,
    platform: Platform,
) -> RequestView {
    RequestView {
        argv: args_for_the_jvm.push(NAILGUN_MAIN_CLASS@).push(ARG_TO_START_NAILGUN@),
        env: Seq::empty(),
        input_files: empty_digest_view(),
        output_files: Seq::empty(),
        output_directories: Seq::empty(),
        timeout: Timeout { secs: SERVER_START_TIMEOUT_SECS, nanos: 0 },
        description: "Start a nailgun server for "@ + nailgun_name,
        local_only_files: empty_digest_view(),
        jdk_home: Some(jdk),
        target_platform: platform,
        is_nailgunnable: true,
    }
}

/// The command line of the client: the distribution, the client binary, a
/// separator, the main class to run, and the arguments for it.
pub open spec fn client_argv(
    python_distribution: Seq<char>,
    client_main_class: Seq<char>,
    client_args: Seq<Seq<char>>,
) -> Seq<Seq<char>> {
    seq![python_distribution, NG_CLIENT_PATH@, "--"@, client_main_class] + client_args
}

/// The request that runs the client against the server on `nailgun_port`:
/// the original request with its command line replaced, the port added to
/// its environment and its JDK dropped.
pub open spec fn client_request(
    original: RequestView,
    python_distribution: Seq<char>,
    client_main_class: Seq<char>,
    client_args: Seq<Seq<char>>,
    nailgun_port: Port,
) -> RequestView {
    RequestView {
        argv: client_argv(python_distribution, client_main_class, client_args),
        env: with_binding(
            original.env,
            NAILGUN_PORT_ENV_VAR_FOR_CLIENT@,
            text::decimal_digits(nailgun_port as nat),
        ),
        jdk_home: None,
        ..original
    }
}

/// Builds the request that starts the nailgun server called `nailgun_name`.
pub fn construct_nailgun_server_request(
    nailgun_name: &str,
    args_for_the_jvm: Vec<String>,
    jdk: String,
    platform: Platform,
) -> (request: ExecuteProcessRequest)
    ensures
        request@ == server_request(nailgun_name@, args_for_the_jvm.deep_view(), jdk@, platform),
{
    let ghost jvm_args = args_for_the_jvm.deep_view();
    let mut full_args = args_for_the_jvm;
    full_args.push(String::from_str(NAILGUN_MAIN_CLASS));
    full_args.push(String::from_str(ARG_TO_START_NAILGUN));
    assert(full_args.deep_view() =~= jvm_args.push(NAILGUN_MAIN_CLASS@).push(
        ARG_TO_START_NAILGUN@,
    ));
    ExecuteProcessRequest {
        argv: full_args,
        env: Env::new(),
        input_files: empty_digest(),
        output_files: PathSet::new(),
        output_directories: PathSet::new(),
        timeout: Timeout { secs: SERVER_START_TIMEOUT_SECS, nanos: 0 },
        description: text::join("Start a nailgun server for ", nailgun_name),
        unsafe_local_only_files_because_we_favor_speed_over_correctness_for_this_rule:
            empty_digest(),
        jdk_home: Some(jdk),
        target_platform: platform,
        is_nailgunnable: true,
    }
}

/// Builds the request that runs `client_main_class` with `client_args`
/// through the nailgun client, against the server on `nailgun_port`.
pub fn construct_nailgun_client_request(
    original_req: ExecuteProcessRequest,
    python_distribution: String,
    client_main_class: String,
    client_args: Vec<String>,
    nailgun_port: Port,
) -> (request: ExecuteProcessRequest)
    ensures
        request@ == client_request(
            original_req@,
            python_distribution@,
            client_main_class@,
            client_args.deep_view(),
            nailgun_port,
        ),
{
    let ExecuteProcessRequest {
        argv: _argv,
        input_files,
        description,
        env: original_request_env,
        output_files,
        output_directories,
        timeout,
        unsafe_local_only_files_because_we_favor_speed_over_correctness_for_this_rule,
        jdk_home: _jdk_home,
        target_platform,
        is_nailgunnable,
    } = original_req;
    let ghost head = seq![python_distribution@, NG_CLIENT_PATH@, "--"@, client_main_class@];
    let mut full_client_cli: Vec<String> = Vec::new();
    full_client_cli.push(python_distribution);
    full_client_cli.push(String::from_str(NG_CLIENT_PATH));
    full_client_cli.push(String::from_str("--"));
    full_client_cli.push(client_main_class);
    assert(full_client_cli.deep_view() =~= head);
    let mut i: usize = 0;
    while i < client_args.len()
        invariant
            i <= client_args.len(),
            head.len() == 4,
            full_client_cli.len() == 4 + i,
            forall|j: int| 0 <= j < 4 ==> full_client_cli@[j]@ == head[j],
            forall|j: int| 0 <= j < i ==> full_client_cli@[4 + j]@ == client_args@[j]@,
        decreases client_args.len() - i,
    {
        full_client_cli.push(client_args[i].clone());
        i = i + 1;
    }
    assert(full_client_cli.deep_view() =~= head + client_args.deep_view());
    let mut client_env = original_request_env;
    client_env.insert(
        String::from_str(NAILGUN_PORT_ENV_VAR_FOR_CLIENT),
        text::decimal(nailgun_port),
    );
    ExecuteProcessRequest {
        argv: full_client_cli,
        input_files,
        description,
        env: client_env,
        output_files,
        output_directories,
        timeout,
        unsafe_local_only_files_because_we_favor_speed_over_correctness_for_this_rule,
        jdk_home: None,
        target_platform,
        is_nailgunnable,
    }
}

/// The client request declares the same inputs, outputs, timeout and
/// description as the request it was made from, for the same platform: only
/// the command line, the environment and the JDK differ.
pub proof fn lemma_client_request_keeps_declarations(
    original: RequestView,
    python_distribution: Seq<char>,
    client_main_class: Seq<char>,
    client_args: Seq<Seq<char>>,
    nailgun_port: Port,
)
    ensures
        ({
            let client = client_request(
                original,
                python_distribution,
                client_main_class,
                client_args,
                nailgun_port,
            );
            &&& client.input_files == original.input_files
            &&& client.output_files == original.output_files
            &&& client.output_directories == original.output_directories
            &&& client.timeout == original.timeout
            &&& client.description == original.description
            &&& client.local_only_files == original.local_only_files
            &&& client.target_platform == original.target_platform
            &&& client.is_nailgunnable == original.is_nailgunnable
        }),
{
}

} // verus!

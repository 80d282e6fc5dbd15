//! The incident demo of the command line.

use vstd::prelude::*;
use vstd::string::*;

verus! {

/// A step of a demo.
#[derive(Debug, Clone)]
pub struct ProofStep {
    pub name: &'static str,
    /// What a shell runs
    pub command: String,
}

/// The steps, as texts: each a name and a command.
pub open spec fn step_texts(steps: Seq<ProofStep>) -> Seq<(Seq<char>, Seq<char>)> {
    Seq::new(steps.len(), |i: int| (steps[i].name@, steps[i].command@))
}

/// The steps of the incident demo on a cluster and in a namespace: what is set up, what is broken,
/// what is diagnosed and done about it.
pub open spec fn incident_demo(cluster: Seq<char>, namespace: Seq<char>) -> Seq<
    (Seq<char>, Seq<char>),
> {
    seq![
        (
            "create-kind-cluster"@,
            "kind create cluster --name "@
                + cluster
                + " --config deploy/kind-config.yaml"@,
        ),
        ("install-gateway-api"@, "kubectl apply -f deploy/gateway-api.yaml"@),
        (
            "deploy-rauta"@,
            "kubectl create namespace "@
                + namespace
                + " --dry-run=client -o yaml | kubectl apply -f - && kubectl apply -f deploy/rauta-daemonset.yaml"@,
        ),
        ("deploy-demo-backend"@, "kubectl apply -f deploy/demo-backend.yaml"@),
        (
            "send-traffic"@,
            "kubectl -n rauta-system port-forward svc/rauta-admin 9091:9091 & sleep 2 && rauta status --format=json"@,
        ),
        ("inject-failure"@, "kubectl scale deploy/demo-backend --replicas=0"@),
        ("diagnose"@, "rauta diagnose degraded --since-seconds=300 --format=agent"@),
        ("safe-action"@, "rauta backends quarantine 127.0.0.1:8080 --ttl=300"@),
        (
            "recover"@,
            "kubectl scale deploy/demo-backend --replicas=1 && rauta diff --since-seconds=300"@,
        ),
    ]
}

fn step(name: &'static str, command: &str) -> (r: ProofStep)
    ensures
        r.name == name,
        r.command@ == command@,
{
    ProofStep { name, command: command.to_owned() }
}

fn step_with(name: &'static str, before: &str, word: &str, after: &str) -> (r: ProofStep)
    ensures
        r.name == name,
        r.command@ == before@ + word@ + after@,
{
    let mut command = before.to_owned();
    command.append(word);
    command.append(after);
    ProofStep { name, command }
}

/// The steps of the incident demo.
pub fn proof_incident_demo_steps(cluster: &str, namespace: &str) -> (r: Vec<ProofStep>)
    ensures
        step_texts(r@) == incident_demo(cluster@, namespace@),
{
    let mut steps: Vec<ProofStep> = Vec::new();
    steps.push(
        step_with(
            "create-kind-cluster",
            "kind create cluster --name ",
            cluster,
            " --config deploy/kind-config.yaml",
        ),
    );
    steps.push(step("install-gateway-api", "kubectl apply -f deploy/gateway-api.yaml"));
    steps.push(
        step_with(
            "deploy-rauta",
            "kubectl create namespace ",
            namespace,
            " --dry-run=client -o yaml | kubectl apply -f - && kubectl apply -f deploy/rauta-daemonset.yaml",
        ),
    );
    steps.push(step("deploy-demo-backend", "kubectl apply -f deploy/demo-backend.yaml"));
    steps.push(
        step(
            "send-traffic",
            "kubectl -n rauta-system port-forward svc/rauta-admin 9091:9091 & sleep 2 && rauta status --format=json",
        ),
    );
    steps.push(step("inject-failure", "kubectl scale deploy/demo-backend --replicas=0"));
    steps.push(step("diagnose", "rauta diagnose degraded --since-seconds=300 --format=agent"));
    steps.push(step("safe-action", "rauta backends quarantine 127.0.0.1:8080 --ttl=300"));
    steps.push(
        step(
            "recover",
            "kubectl scale deploy/demo-backend --replicas=1 && rauta diff --since-seconds=300",
        ),
    );
    assert(step_texts(steps@) =~= incident_demo(cluster@, namespace@));
    steps
}

/// The error of a step that did not succeed.
pub fn failed_step(step: &ProofStep, status: &str) -> (r: String)
    ensures
        r@ == "proof step '"@ + step.name@ + "' failed with "@ + status@,
{
    let mut s = "proof step '".to_owned();
    s.append(step.name);
    s.append("' failed with ");
    s.append(status);
    s
}

/// The incident demo goes from a new cluster to a recovered backend, in this order, and works on the
/// given cluster and in the given namespace.
pub proof fn lemma_demo_goes_in_order(cluster: Seq<char>, namespace: Seq<char>)
    ensures
        ({
            let steps = incident_demo(cluster, namespace);
            &&& steps.len() == 9
            &&& steps[0].0 == "create-kind-cluster"@
            &&& steps[1].0 == "install-gateway-api"@
            &&& steps[2].0 == "deploy-rauta"@
            &&& steps[3].0 == "deploy-demo-backend"@
            &&& steps[4].0 == "send-traffic"@
            &&& steps[5].0 == "inject-failure"@
            &&& steps[6].0 == "diagnose"@
            &&& steps[7].0 == "safe-action"@
            &&& steps[8].0 == "recover"@
            &&& ("kind create cluster --name "@ + cluster).is_prefix_of(steps[0].1)
            &&& ("kubectl create namespace "@ + namespace).is_prefix_of(steps[2].1)
        }),
{
    let steps = incident_demo(cluster, namespace);
    let a = "kind create cluster --name "@ + cluster;
    assert(steps[0].1.subrange(0, a.len() as int) =~= a);
    let b = "kubectl create namespace "@ + namespace;
    assert(steps[2].1.subrange(0, b.len() as int) =~= b);
}

} // verus!

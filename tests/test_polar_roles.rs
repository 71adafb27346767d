use polar::roles::{
    Instance, ParentLink, Policy, Relation, ResourceDecl, RoleAssignment, RoleDecl, RoleRef,
    RolesConfig, RolesError, validate_roles,
};

fn s(x: &str) -> String {
    x.to_string()
}

fn local(name: &str) -> RoleRef {
    RoleRef { resource: None, name: s(name) }
}

fn on(resource: &str, name: &str) -> RoleRef {
    RoleRef { resource: Some(s(resource)), name: s(name) }
}

fn role(name: &str, permissions: Vec<RoleRef>, implies: Vec<RoleRef>) -> RoleDecl {
    RoleDecl { name: s(name), permissions, implies }
}

fn roles_config() -> RolesConfig {
    RolesConfig {
        resources: vec![
            ResourceDecl {
                name: s("org"),
                actions: vec![s("invite"), s("create_repo")],
                roles: vec![
                    role("member", vec![local("create_repo")], vec![on("repo", "reader")]),
                    role("owner", vec![local("invite")], vec![local("member"), on("repo", "writer")]),
                ],
            },
            ResourceDecl {
                name: s("repo"),
                actions: vec![s("push"), s("pull")],
                roles: vec![
                    role("writer", vec![local("push"), on("issue", "edit")], vec![local("reader")]),
                    role("reader", vec![local("pull")], vec![]),
                ],
            },
            ResourceDecl { name: s("issue"), actions: vec![s("edit")], roles: vec![] },
        ],
        relations: vec![
            Relation { parent: s("org"), child: s("repo") },
            Relation { parent: s("repo"), child: s("issue") },
        ],
    }
}

fn inst(kind: &str, id: u64) -> Instance {
    Instance { kind: s(kind), id }
}

// Orgs "oso" (1) and "apple" (2); repos "oso" (3) in org 1 and "ios" (4) in
// org 2; issues "bug" (5) in repo 3 and "laggy" (6) in repo 4.
fn links() -> Vec<ParentLink> {
    vec![
        ParentLink { parent: inst("org", 1), child: inst("repo", 3) },
        ParentLink { parent: inst("org", 2), child: inst("repo", 4) },
        ParentLink { parent: inst("repo", 3), child: inst("issue", 5) },
        ParentLink { parent: inst("repo", 4), child: inst("issue", 6) },
    ]
}

fn has(role: &str, org: u64) -> RoleAssignment {
    RoleAssignment { role: s(role), resource: inst("org", org) }
}

fn allowed(p: &Policy, roles: &Vec<RoleAssignment>, action: &str, resource: Instance) -> bool {
    p.allow(&links(), roles, &s(action), &resource)
}

#[test]
fn test_polar_roles() {
    let mut policy = Policy::new();
    assert!(policy.load_roles(roles_config()).is_ok());

    let osohq = || inst("org", 1);
    let oso = || inst("repo", 3);
    let bug = || inst("issue", 5);
    let laggy = || inst("issue", 6);

    let gwen = vec![has("member", 1)];
    let dave = vec![has("owner", 1)];

    assert!(allowed(&policy, &dave, "invite", osohq()));
    assert!(allowed(&policy, &dave, "create_repo", osohq()));
    assert!(allowed(&policy, &dave, "push", oso()));
    assert!(allowed(&policy, &dave, "pull", oso()));
    assert!(allowed(&policy, &dave, "edit", bug()));

    assert!(!allowed(&policy, &gwen, "invite", osohq()));
    assert!(allowed(&policy, &gwen, "create_repo", osohq()));
    assert!(!allowed(&policy, &gwen, "push", oso()));
    assert!(allowed(&policy, &gwen, "pull", oso()));
    assert!(!allowed(&policy, &gwen, "edit", bug()));

    assert!(!allowed(&policy, &dave, "edit", laggy()));
    assert!(!allowed(&policy, &gwen, "edit", laggy()));

    let gabe: Vec<RoleAssignment> = vec![];
    assert!(!allowed(&policy, &gabe, "edit", bug()));
    let gabe = vec![has("member", 1)];
    assert!(!allowed(&policy, &gabe, "edit", bug()));
    let gabe = vec![has("owner", 1)];
    assert!(allowed(&policy, &gabe, "edit", bug()));
}

fn valid_config() -> RolesConfig {
    RolesConfig {
        resources: vec![ResourceDecl { name: s("repo"), actions: vec![s("read")], roles: vec![] }],
        relations: vec![],
    }
}

fn check_empty_roles_error(err: RolesError) {
    let msg = String::from("Must define actions or roles.");
    assert!(matches!(err, RolesError::MissingActionsOrRoles(_)));
    assert_eq!(err.message(), msg);
}

#[test]
fn test_roles_revalidation_str() {
    let mut policy = Policy::new();
    assert!(policy.load_roles(valid_config()).is_ok());
    let invalid = RolesConfig {
        resources: vec![ResourceDecl { name: s("org"), actions: vec![], roles: vec![] }],
        relations: vec![],
    };
    check_empty_roles_error(policy.load_roles(invalid).unwrap_err());
}

#[test]
fn roles_on_another_org_allow_nothing_here() {
    let mut policy = Policy::new();
    assert!(policy.load_roles(roles_config()).is_ok());
    let apple_owner = vec![has("owner", 2)];
    assert!(!allowed(&policy, &apple_owner, "invite", inst("org", 1)));
    assert!(!allowed(&policy, &apple_owner, "pull", inst("repo", 3)));
    assert!(!allowed(&policy, &apple_owner, "edit", inst("issue", 5)));
    assert!(allowed(&policy, &apple_owner, "edit", inst("issue", 6)));
    let nobody: Vec<RoleAssignment> = vec![];
    for (action, resource) in [("invite", inst("org", 1)), ("create_repo", inst("org", 2)), ("push", inst("repo", 4)), ("pull", inst("repo", 3))] {
        assert!(!allowed(&policy, &nobody, action, resource));
    }
}

#[test]
fn a_policy_without_roles_allows_nothing() {
    let policy = Policy::new();
    assert!(!allowed(&policy, &vec![has("owner", 1)], "invite", inst("org", 1)));
}

#[test]
fn failed_load_keeps_previous_answers() {
    let mut policy = Policy::new();
    assert!(policy.load_roles(roles_config()).is_ok());
    let dave = vec![has("owner", 1)];
    let before = allowed(&policy, &dave, "edit", inst("issue", 5));
    let mut broken = roles_config();
    broken.resources.push(ResourceDecl { name: s("team"), actions: vec![], roles: vec![] });
    assert!(policy.load_roles(broken).is_err());
    assert_eq!(allowed(&policy, &dave, "edit", inst("issue", 5)), before);
    assert!(before);
}

#[test]
fn reloading_the_same_roles_gives_the_same_answers() {
    let mut once = Policy::new();
    assert!(once.load_roles(roles_config()).is_ok());
    let mut twice = Policy::new();
    assert!(twice.load_roles(roles_config()).is_ok());
    assert!(twice.load_roles(roles_config()).is_ok());
    let people = [vec![has("owner", 1)], vec![has("member", 1)], vec![]];
    let targets = [("invite", inst("org", 1)), ("push", inst("repo", 3)), ("pull", inst("repo", 3)), ("edit", inst("issue", 5))];
    for p in people.iter() {
        for (action, resource) in targets.iter() {
            let r = Instance { kind: resource.kind.clone(), id: resource.id };
            let r2 = Instance { kind: resource.kind.clone(), id: resource.id };
            assert_eq!(allowed(&once, p, action, r), allowed(&twice, p, action, r2));
        }
    }
}

#[test]
fn unresolved_implied_role_is_refused() {
    let mut cfg = roles_config();
    cfg.resources[1].roles[1].implies.push(local("admin"));
    let err = validate_roles(&cfg).unwrap_err();
    assert_eq!(err, RolesError::UnresolvedRole { resource: s("repo"), role: s("admin") });
    assert_eq!(err.message(), "Could not find role: admin");
}

#[test]
fn implied_role_up_the_chain_is_refused() {
    let mut cfg = roles_config();
    // org is a parent of repo, not below it.
    cfg.resources[1].roles[1].implies.push(on("org", "member"));
    assert!(matches!(validate_roles(&cfg), Err(RolesError::UnresolvedRole { .. })));
}

#[test]
fn implied_role_down_the_chain_resolves_and_applies() {
    let mut cfg = roles_config();
    // issue lies below org through repo.
    cfg.resources[0].roles[1].implies.push(on("issue", "triager"));
    cfg.resources[2].actions.push(s("close"));
    cfg.resources[2].roles.push(role("triager", vec![local("close")], vec![]));
    assert_eq!(validate_roles(&cfg), Ok(()));
    let mut policy = Policy::new();
    assert!(policy.load_roles(cfg).is_ok());
    assert!(allowed(&policy, &vec![has("owner", 1)], "close", inst("issue", 5)));
    assert!(!allowed(&policy, &vec![has("owner", 1)], "close", inst("issue", 6)));
    assert!(!allowed(&policy, &vec![has("member", 1)], "close", inst("issue", 5)));
}

#[test]
fn empty_resource_is_refused_before_resolution() {
    let mut cfg = roles_config();
    cfg.resources[0].roles[0].implies.push(local("nobody"));
    cfg.resources.push(ResourceDecl { name: s("team"), actions: vec![], roles: vec![] });
    assert_eq!(validate_roles(&cfg), Err(RolesError::MissingActionsOrRoles(s("team"))));
}

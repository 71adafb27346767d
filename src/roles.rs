use vstd::prelude::*;

verus! {

/// A reference to a role or an action, bare (`member`) or on another
/// resource type (`repo:reader`).
pub struct RoleRef {
    pub resource: Option<String>,
    pub name: String,
}

pub struct RoleDecl {
    pub name: String,
    /// Actions this role grants, on its own resource or on a child's.
    pub permissions: Vec<RoleRef>,
    /// Roles whose permissions this role grants too.
    pub implies: Vec<RoleRef>,
}

pub struct ResourceDecl {
    /// The resource type's name, such as `org`.
    pub name: String,
    pub actions: Vec<String>,
    pub roles: Vec<RoleDecl>,
}

/// Resources of type `child` may belong to resources of type `parent`.
pub struct Relation {
    pub parent: String,
    pub child: String,
}

/// The role declarations of a policy.
pub struct RolesConfig {
    pub resources: Vec<ResourceDecl>,
    pub relations: Vec<Relation>,
}

/// Why role declarations were refused.
#[derive(Debug, PartialEq, Eq)]
pub enum RolesError {
    /// The named resource declares neither actions nor roles.
    MissingActionsOrRoles(String),
    /// A role of `resource` implies `role`, which resolves nowhere it may.
    UnresolvedRole { resource: String, role: String },
}

impl RolesError {
    /// The error's message.
    pub fn message(&self) -> (r: String)
        ensures
            self is MissingActionsOrRoles ==> r@ == "Must define actions or roles."@,
            self matches RolesError::UnresolvedRole { role, .. } ==> r@ == "Could not find role: "@
                + role@,
    {
        match self {
            RolesError::MissingActionsOrRoles(_) => String::from_str("Must define actions or roles."),
            RolesError::UnresolvedRole { role, .. } => {
                let mut m = String::from_str("Could not find role: ");
                m.append(role.as_str());
                m
            },
        }
    }
}

/// The index of the first role of `r` named `name`, from index `j` on.
pub open spec fn role_index_from(r: ResourceDecl, name: Seq<char>, j: int) -> Option<int>
    decreases r.roles@.len() - j,
{
    if j < 0 || j >= r.roles@.len() {
        None
    } else if r.roles@[j].name@ == name {
        Some(j)
    } else {
        role_index_from(r, name, j + 1)
    }
}

pub open spec fn role_index(r: ResourceDecl, name: Seq<char>) -> Option<int> {
    role_index_from(r, name, 0)
}

/// The first resource named `ty` that declares a role `name`, from index `i`
/// on, with that role's index.
pub open spec fn find_role_from(cfg: RolesConfig, ty: Seq<char>, name: Seq<char>, i: int) -> Option<
    (int, int),
>
    decreases cfg.resources@.len() - i,
{
    if i < 0 || i >= cfg.resources@.len() {
        None
    } else if cfg.resources@[i].name@ == ty && role_index(cfg.resources@[i], name).is_some() {
        Some((i, role_index(cfg.resources@[i], name).unwrap()))
    } else {
        find_role_from(cfg, ty, name, i + 1)
    }
}

pub open spec fn find_role(cfg: RolesConfig, ty: Seq<char>, name: Seq<char>) -> Option<(int, int)> {
    find_role_from(cfg, ty, name, 0)
}

/// `child` is reached from `parent` through relations, over at most
/// `fuel` intermediate types.
pub open spec fn reaches_type(cfg: RolesConfig, parent: Seq<char>, child: Seq<char>, fuel: nat) -> bool
    decreases fuel,
{
    exists|k: int|
        0 <= k < cfg.relations@.len() && #[trigger] cfg.relations@[k].parent@ == parent && (
        cfg.relations@[k].child@ == child || (fuel > 0 && reaches_type(
            cfg,
            cfg.relations@[k].child@,
            child,
            (fuel - 1) as nat,
        )))
}

/// `child` lies below `parent` on the declared parent/child chain; a chain
/// that visits no type twice has fewer links than there are relations.
pub open spec fn related(cfg: RolesConfig, parent: Seq<char>, child: Seq<char>) -> bool {
    reaches_type(cfg, parent, child, cfg.relations@.len())
}

pub open spec fn has_actions_or_roles(r: ResourceDecl) -> bool {
    r.actions@.len() > 0 || r.roles@.len() > 0
}

/// An implied role resolves: a bare name to a role of the same resource, a
/// `type:role` to a role of a resource type that is a child of this one.
pub open spec fn resolves(cfg: RolesConfig, i: int, imp: RoleRef) -> bool {
    match imp.resource {
        None => role_index(cfg.resources@[i], imp.name@).is_some(),
        Some(ty) => find_role(cfg, ty@, imp.name@).is_some() && related(
            cfg,
            cfg.resources@[i].name@,
            ty@,
        ),
    }
}

pub open spec fn all_have_actions_or_roles(cfg: RolesConfig) -> bool {
    forall|i: int| 0 <= i < cfg.resources@.len() ==> has_actions_or_roles(#[trigger] cfg.resources@[i])
}

pub open spec fn all_resolve(cfg: RolesConfig) -> bool {
    forall|i: int, j: int, k: int|
        0 <= i < cfg.resources@.len() && 0 <= j < cfg.resources@[i].roles@.len() && 0 <= k
            < cfg.resources@[i].roles@[j].implies@.len() ==> resolves(
            cfg,
            i,
            #[trigger] cfg.resources@[i].roles@[j].implies@[k],
        )
}

pub proof fn lemma_role_index_in_range(r: ResourceDecl, name: Seq<char>, j: int)
    ensures
        role_index_from(r, name, j) matches Some(k) ==> 0 <= k < r.roles@.len()
            && r.roles@[k].name@ == name,
    decreases r.roles@.len() - j,
{
    if 0 <= j < r.roles@.len() && r.roles@[j].name@ != name {
        lemma_role_index_in_range(r, name, j + 1);
    }
}

pub proof fn lemma_find_role_in_range(cfg: RolesConfig, ty: Seq<char>, name: Seq<char>, i: int)
    ensures
        find_role_from(cfg, ty, name, i) matches Some((a, b)) ==> 0 <= a < cfg.resources@.len()
            && 0 <= b < cfg.resources@[a].roles@.len() && cfg.resources@[a].name@ == ty
            && cfg.resources@[a].roles@[b].name@ == name,
    decreases cfg.resources@.len() - i,
{
    if 0 <= i < cfg.resources@.len() {
        lemma_role_index_in_range(cfg.resources@[i], name, 0);
        lemma_find_role_in_range(cfg, ty, name, i + 1);
    }
}

fn role_index_exec(r: &ResourceDecl, name: &String) -> (out: Option<usize>)
    ensures
        match role_index(*r, name@) {
            Some(j) => out matches Some(k) && k as int == j,
            None => out.is_none(),
        },
        out matches Some(j) ==> j < r.roles@.len(),
{
    proof {
        lemma_role_index_in_range(*r, name@, 0);
    }
    let mut j: usize = 0;
    while j < r.roles.len()
        invariant
            j <= r.roles@.len(),
            role_index(*r, name@) == role_index_from(*r, name@, j as int),
        decreases r.roles@.len() - j,
    {
        if r.roles[j].name == *name {
            return Some(j);
        }
        j = j + 1;
    }
    None
}

fn find_role_exec(cfg: &RolesConfig, ty: &String, name: &String) -> (out: Option<(usize, usize)>)
    ensures
        match find_role(*cfg, ty@, name@) {
            Some((i, j)) => out matches Some((a, b)) && a as int == i && b as int == j,
            None => out.is_none(),
        },
        out matches Some((i, j)) ==> i < cfg.resources@.len() && j < cfg.resources@[i as int].roles@.len(),
{
    proof {
        lemma_find_role_in_range(*cfg, ty@, name@, 0);
    }
    let mut i: usize = 0;
    while i < cfg.resources.len()
        invariant
            i <= cfg.resources@.len(),
            find_role(*cfg, ty@, name@) == find_role_from(*cfg, ty@, name@, i as int),
        decreases cfg.resources@.len() - i,
    {
        let r = &cfg.resources[i];
        if r.name == *ty {
            match role_index_exec(r, name) {
                Some(j) => {
                    return Some((i, j));
                },
                None => {},
            }
        }
        i = i + 1;
    }
    None
}

fn reaches_type_exec(cfg: &RolesConfig, parent: &String, child: &String, fuel: usize) -> (r: bool)
    ensures
        r == reaches_type(*cfg, parent@, child@, fuel as nat),
    decreases fuel,
{
    let mut k: usize = 0;
    while k < cfg.relations.len()
        invariant
            k <= cfg.relations@.len(),
            forall|m: int|
                0 <= m < k ==> !(#[trigger] cfg.relations@[m].parent@ == parent@ && (
                cfg.relations@[m].child@ == child@ || (fuel > 0 && reaches_type(
                    *cfg,
                    cfg.relations@[m].child@,
                    child@,
                    (fuel - 1) as nat,
                )))),
        decreases cfg.relations@.len() - k,
    {
        let rel = &cfg.relations[k];
        if rel.parent == *parent {
            if rel.child == *child || (fuel > 0 && reaches_type_exec(cfg, &rel.child, child, fuel - 1)) {
                assert(cfg.relations@[k as int].parent@ == parent@);
                return true;
            }
        }
        k = k + 1;
    }
    false
}

fn related_exec(cfg: &RolesConfig, parent: &String, child: &String) -> (r: bool)
    ensures
        r == related(*cfg, parent@, child@),
{
    reaches_type_exec(cfg, parent, child, cfg.relations.len())
}

fn resolves_exec(cfg: &RolesConfig, i: usize, imp: &RoleRef) -> (r: bool)
    requires
        i < cfg.resources@.len(),
    ensures
        r == resolves(*cfg, i as int, *imp),
{
    match &imp.resource {
        None => role_index_exec(&cfg.resources[i], &imp.name).is_some(),
        Some(ty) => find_role_exec(cfg, ty, &imp.name).is_some() && related_exec(
            cfg,
            &cfg.resources[i].name,
            ty,
        ),
    }
}

/// Checks role declarations before they are committed: every resource needs
/// actions or roles, then every implied role has to resolve.
pub fn validate_roles(cfg: &RolesConfig) -> (r: Result<(), RolesError>)
    ensures
        r is Ok <==> all_have_actions_or_roles(*cfg) && all_resolve(*cfg),
        r is Err && r->Err_0 is MissingActionsOrRoles <==> !all_have_actions_or_roles(*cfg),
        (r matches Err(RolesError::MissingActionsOrRoles(n)) ==> exists|i: int|
            0 <= i < cfg.resources@.len() && !has_actions_or_roles(#[trigger] cfg.resources@[i])
                && cfg.resources@[i].name@ == n@),
        (r matches Err(RolesError::UnresolvedRole { resource, role }) ==> exists|i: int, j: int, k: int|
            0 <= i < cfg.resources@.len() && 0 <= j < cfg.resources@[i].roles@.len() && 0 <= k
                < cfg.resources@[i].roles@[j].implies@.len() && !resolves(
                *cfg,
                i,
                #[trigger] cfg.resources@[i].roles@[j].implies@[k],
            ) && cfg.resources@[i].name@ == resource@ && cfg.resources@[i].roles@[j].implies@[k].name@
                == role@),
{
    let mut i: usize = 0;
    while i < cfg.resources.len()
        invariant
            i <= cfg.resources@.len(),
            forall|m: int| 0 <= m < i ==> has_actions_or_roles(#[trigger] cfg.resources@[m]),
        decreases cfg.resources@.len() - i,
    {
        let r = &cfg.resources[i];
        if r.actions.len() == 0 && r.roles.len() == 0 {
            return Err(RolesError::MissingActionsOrRoles(r.name.clone()));
        }
        i = i + 1;
    }
    let mut i: usize = 0;
    while i < cfg.resources.len()
        invariant
            i <= cfg.resources@.len(),
            all_have_actions_or_roles(*cfg),
            forall|a: int, b: int, c: int|
                0 <= a < i && 0 <= b < cfg.resources@[a].roles@.len() && 0 <= c
                    < cfg.resources@[a].roles@[b].implies@.len() ==> resolves(
                    *cfg,
                    a,
                    #[trigger] cfg.resources@[a].roles@[b].implies@[c],
                ),
        decreases cfg.resources@.len() - i,
    {
        let mut j: usize = 0;
        while j < cfg.resources[i].roles.len()
            invariant
                i < cfg.resources@.len(),
                j <= cfg.resources@[i as int].roles@.len(),
                all_have_actions_or_roles(*cfg),
                forall|a: int, b: int, c: int|
                    0 <= a < i && 0 <= b < cfg.resources@[a].roles@.len() && 0 <= c
                        < cfg.resources@[a].roles@[b].implies@.len() ==> resolves(
                        *cfg,
                        a,
                        #[trigger] cfg.resources@[a].roles@[b].implies@[c],
                    ),
                forall|b: int, c: int|
                    0 <= b < j && 0 <= c < cfg.resources@[i as int].roles@[b].implies@.len()
                        ==> resolves(
                        *cfg,
                        i as int,
                        #[trigger] cfg.resources@[i as int].roles@[b].implies@[c],
                    ),
            decreases cfg.resources@[i as int].roles@.len() - j,
        {
            let mut k: usize = 0;
            while k < cfg.resources[i].roles[j].implies.len()
                invariant
                    i < cfg.resources@.len(),
                    j < cfg.resources@[i as int].roles@.len(),
                    k <= cfg.resources@[i as int].roles@[j as int].implies@.len(),
                    all_have_actions_or_roles(*cfg),
                    forall|a: int, b: int, c: int|
                        0 <= a < i && 0 <= b < cfg.resources@[a].roles@.len() && 0 <= c
                            < cfg.resources@[a].roles@[b].implies@.len() ==> resolves(
                            *cfg,
                            a,
                            #[trigger] cfg.resources@[a].roles@[b].implies@[c],
                        ),
                    forall|b: int, c: int|
                        0 <= b < j && 0 <= c < cfg.resources@[i as int].roles@[b].implies@.len()
                            ==> resolves(
                            *cfg,
                            i as int,
                            #[trigger] cfg.resources@[i as int].roles@[b].implies@[c],
                        ),
                    forall|c: int|
                        0 <= c < k ==> resolves(
                            *cfg,
                            i as int,
                            #[trigger] cfg.resources@[i as int].roles@[j as int].implies@[c],
                        ),
                decreases cfg.resources@[i as int].roles@[j as int].implies@.len() - k,
            {
                let imp = &cfg.resources[i].roles[j].implies[k];
                if !resolves_exec(cfg, i, imp) {
                    assert(!resolves(*cfg, i as int, cfg.resources@[i as int].roles@[j as int].implies@[k as int]));
                    return Err(
                        RolesError::UnresolvedRole {
                            resource: cfg.resources[i].name.clone(),
                            role: imp.name.clone(),
                        },
                    );
                }
                k = k + 1;
            }
            j = j + 1;
        }
        i = i + 1;
    }
    Ok(())
}


/// A host resource: its type's name and an identity.
pub struct Instance {
    pub kind: String,
    pub id: u64,
}

pub open spec fn same(a: Instance, b: Instance) -> bool {
    a.kind@ == b.kind@ && a.id == b.id
}

fn same_exec(a: &Instance, b: &Instance) -> (r: bool)
    ensures
        r == same(*a, *b),
{
    a.id == b.id && a.kind == b.kind
}

/// `child` belongs to `parent`.
pub struct ParentLink {
    pub parent: Instance,
    pub child: Instance,
}

/// The actor holds role `role` on `resource`.
pub struct RoleAssignment {
    pub role: String,
    pub resource: Instance,
}

/// `child` lies below `parent` through at most `fuel + 1` links.
pub open spec fn below(links: Seq<ParentLink>, parent: Instance, child: Instance, fuel: nat) -> bool
    decreases fuel,
{
    exists|m: int|
        0 <= m < links.len() && same(#[trigger] links[m].child, child) && (same(links[m].parent, parent)
            || (fuel > 0 && below(links, parent, links[m].parent, (fuel - 1) as nat)))
}

/// `child` lies below `parent` through the links; a chain that visits no
/// resource twice has no more links than there are.
pub open spec fn is_within(links: Seq<ParentLink>, parent: Instance, child: Instance) -> bool {
    below(links, parent, child, links.len())
}

/// Permission `p` of a role held on `x` allows `act` on `t`.
pub open spec fn perm_grants(links: Seq<ParentLink>, p: RoleRef, x: Instance, act: Seq<char>, t: Instance) -> bool {
    p.name@ == act && match p.resource {
        None => same(x, t),
        Some(ty) => t.kind@ == ty@ && is_within(links, x, t),
    }
}

/// Role `rj` of resource type `ri`, held on `x`, allows `act` on `t`, through
/// at most `fuel` implied roles.
pub open spec fn grants(
    cfg: RolesConfig,
    links: Seq<ParentLink>,
    ri: int,
    rj: int,
    x: Instance,
    act: Seq<char>,
    t: Instance,
    fuel: nat,
) -> bool
    decreases fuel, 1int,
{
    if 0 <= ri < cfg.resources@.len() && 0 <= rj < cfg.resources@[ri].roles@.len() {
        let role = cfg.resources@[ri].roles@[rj];
        (exists|k: int|
            0 <= k < role.permissions@.len() && perm_grants(
                links,
                #[trigger] role.permissions@[k],
                x,
                act,
                t,
            )) || (fuel > 0 && exists|k: int|
            0 <= k < role.implies@.len() && implied_grants(
                cfg,
                links,
                ri,
                #[trigger] role.implies@[k],
                x,
                act,
                t,
                fuel,
            ))
    } else {
        false
    }
}

/// The role that `imp` names, held on `x` (a bare name) or on a child of
/// `x` of the named type, allows `act` on `t`.
pub open spec fn implied_grants(
    cfg: RolesConfig,
    links: Seq<ParentLink>,
    ri: int,
    imp: RoleRef,
    x: Instance,
    act: Seq<char>,
    t: Instance,
    fuel: nat,
) -> bool
    decreases fuel, 0int,
{
    if fuel == 0 || !(0 <= ri < cfg.resources@.len()) {
        false
    } else {
        match imp.resource {
            None => match role_index(cfg.resources@[ri], imp.name@) {
                Some(j2) => grants(cfg, links, ri, j2, x, act, t, (fuel - 1) as nat),
                None => false,
            },
            Some(ty) => match find_role(cfg, ty@, imp.name@) {
                Some((i2, j2)) => exists|m: int|
                    0 <= m < links.len() && is_within(links, x, #[trigger] links[m].child) && links[m].child.kind@
                        == ty@ && grants(cfg, links, i2, j2, links[m].child, act, t, (fuel - 1) as nat),
                None => false,
            },
        }
    }
}

fn below_exec(links: &Vec<ParentLink>, parent: &Instance, child: &Instance, fuel: usize) -> (r: bool)
    ensures
        r == below(links@, *parent, *child, fuel as nat),
    decreases fuel,
{
    let mut m: usize = 0;
    while m < links.len()
        invariant
            m <= links@.len(),
            forall|q: int|
                0 <= q < m ==> !(same(#[trigger] links@[q].child, *child) && (same(
                    links@[q].parent,
                    *parent,
                ) || (fuel > 0 && below(links@, *parent, links@[q].parent, (fuel - 1) as nat)))),
        decreases links@.len() - m,
    {
        let l = &links[m];
        if same_exec(&l.child, child) {
            if same_exec(&l.parent, parent) || (fuel > 0 && below_exec(links, parent, &l.parent, fuel - 1)) {
                assert(same(links@[m as int].child, *child));
                return true;
            }
        }
        m = m + 1;
    }
    false
}

fn is_within_exec(links: &Vec<ParentLink>, parent: &Instance, child: &Instance) -> (r: bool)
    ensures
        r == is_within(links@, *parent, *child),
{
    below_exec(links, parent, child, links.len())
}

fn perm_grants_exec(links: &Vec<ParentLink>, p: &RoleRef, x: &Instance, act: &String, t: &Instance) -> (r: bool)
    ensures
        r == perm_grants(links@, *p, *x, act@, *t),
{
    if p.name != *act {
        return false;
    }
    match &p.resource {
        None => same_exec(x, t),
        Some(ty) => t.kind == *ty && is_within_exec(links, x, t),
    }
}

fn grants_exec(
    cfg: &RolesConfig,
    links: &Vec<ParentLink>,
    ri: usize,
    rj: usize,
    x: &Instance,
    act: &String,
    t: &Instance,
    fuel: u64,
) -> (r: bool)
    requires
        ri < cfg.resources@.len(),
        rj < cfg.resources@[ri as int].roles@.len(),
    ensures
        r == grants(*cfg, links@, ri as int, rj as int, *x, act@, *t, fuel as nat),
    decreases fuel, 1int,
{
    let role = &cfg.resources[ri].roles[rj];
    let mut k: usize = 0;
    while k < role.permissions.len()
        invariant
            k <= role.permissions@.len(),
            ri < cfg.resources@.len(),
            rj < cfg.resources@[ri as int].roles@.len(),
            *role == cfg.resources@[ri as int].roles@[rj as int],
            forall|q: int|
                0 <= q < k ==> !perm_grants(links@, #[trigger] role.permissions@[q], *x, act@, *t),
        decreases role.permissions@.len() - k,
    {
        if perm_grants_exec(links, &role.permissions[k], x, act, t) {
            return true;
        }
        k = k + 1;
    }
    if fuel == 0 {
        return false;
    }
    let mut k: usize = 0;
    while k < role.implies.len()
        invariant
            0 < fuel,
            ri < cfg.resources@.len(),
            rj < cfg.resources@[ri as int].roles@.len(),
            k <= role.implies@.len(),
            *role == cfg.resources@[ri as int].roles@[rj as int],
            forall|q: int| 0 <= q < role.permissions@.len() ==> !perm_grants(links@, #[trigger] role.permissions@[q], *x, act@, *t),
            forall|q: int|
                0 <= q < k ==> !implied_grants(
                    *cfg,
                    links@,
                    ri as int,
                    #[trigger] role.implies@[q],
                    *x,
                    act@,
                    *t,
                    fuel as nat,
                ),
        decreases role.implies@.len() - k,
    {
        if implied_grants_exec(cfg, links, ri, &role.implies[k], x, act, t, fuel) {
            return true;
        }
        k = k + 1;
    }
    false
}

fn implied_grants_exec(
    cfg: &RolesConfig,
    links: &Vec<ParentLink>,
    ri: usize,
    imp: &RoleRef,
    x: &Instance,
    act: &String,
    t: &Instance,
    fuel: u64,
) -> (r: bool)
    requires
        ri < cfg.resources@.len(),
        fuel > 0,
    ensures
        r == implied_grants(*cfg, links@, ri as int, *imp, *x, act@, *t, fuel as nat),
    decreases fuel, 0int,
{
    match &imp.resource {
        None => match role_index_exec(&cfg.resources[ri], &imp.name) {
            Some(j2) => grants_exec(cfg, links, ri, j2, x, act, t, fuel - 1),
            None => false,
        },
        Some(ty) => match find_role_exec(cfg, ty, &imp.name) {
            Some((i2, j2)) => {
                proof {
                    lemma_find_role_in_range(*cfg, ty@, imp.name@, 0);
                }
                let mut m: usize = 0;
                while m < links.len()
                    invariant
                        m <= links@.len(),
                        fuel > 0,
                        find_role(*cfg, ty@, imp.name@) == Some((i2 as int, j2 as int)),
                        imp.resource == Some(*ty),
                        ri < cfg.resources@.len(),
                        i2 < cfg.resources@.len(),
                        j2 < cfg.resources@[i2 as int].roles@.len(),
                        forall|q: int|
                            0 <= q < m ==> !(is_within(links@, *x, #[trigger] links@[q].child)
                                && links@[q].child.kind@ == ty@ && grants(
                                *cfg,
                                links@,
                                i2 as int,
                                j2 as int,
                                links@[q].child,
                                act@,
                                *t,
                                (fuel - 1) as nat,
                            )),
                    decreases links@.len() - m,
                {
                    let l = &links[m];
                    if l.child.kind == *ty && is_within_exec(links, x, &l.child) && grants_exec(
                        cfg,
                        links,
                        i2,
                        j2,
                        &l.child,
                        act,
                        t,
                        fuel - 1,
                    ) {
                        assert(is_within(links@, *x, links@[m as int].child) && links@[m as int].child.kind@ == ty@
                            && grants(
                            *cfg,
                            links@,
                            i2 as int,
                            j2 as int,
                            links@[m as int].child,
                            act@,
                            *t,
                            (fuel - 1) as nat,
                        ));
                        return true;
                    }
                    m = m + 1;
                }
                false
            },
            None => false,
        },
    }
}


/// The number of roles declared by the first `n` resources.
pub open spec fn role_count_upto(cfg: RolesConfig, n: int) -> nat
    decreases n,
{
    if n <= 0 || n > cfg.resources@.len() {
        0
    } else {
        role_count_upto(cfg, n - 1) + cfg.resources@[n - 1].roles@.len()
    }
}

/// How many implied roles a permission check follows at most: enough for
/// every derivation that holds no role on one resource twice.
pub open spec fn search_depth(cfg: RolesConfig, links: Seq<ParentLink>) -> nat {
    let d = role_count_upto(cfg, cfg.resources@.len() as int) * (links.len() + 1);
    if d <= u64::MAX {
        d
    } else {
        u64::MAX as nat
    }
}

pub open spec fn assignment_allows(
    cfg: RolesConfig,
    links: Seq<ParentLink>,
    a: RoleAssignment,
    act: Seq<char>,
    t: Instance,
) -> bool {
    match find_role(cfg, a.resource.kind@, a.role@) {
        Some((i, j)) => grants(cfg, links, i, j, a.resource, act, t, search_depth(cfg, links)),
        None => false,
    }
}

/// One of the actor's roles allows `act` on `t`.
pub open spec fn allows(
    cfg: RolesConfig,
    links: Seq<ParentLink>,
    roles: Seq<RoleAssignment>,
    act: Seq<char>,
    t: Instance,
) -> bool {
    exists|k: int| 0 <= k < roles.len() && assignment_allows(cfg, links, #[trigger] roles[k], act, t)
}

fn search_depth_exec(cfg: &RolesConfig, links: &Vec<ParentLink>) -> (r: u64)
    ensures
        r as nat == search_depth(*cfg, links@),
{
    let mut total: u64 = 0;
    let mut i: usize = 0;
    let mut saturated = false;
    while i < cfg.resources.len()
        invariant
            i <= cfg.resources@.len(),
            saturated ==> role_count_upto(*cfg, i as int) > u64::MAX,
            !saturated ==> total as nat == role_count_upto(*cfg, i as int),
        decreases cfg.resources@.len() - i,
    {
        let n = cfg.resources[i].roles.len() as u64;
        if !saturated {
            match total.checked_add(n) {
                Some(s) => {
                    total = s;
                },
                None => {
                    saturated = true;
                },
            }
        }
        i = i + 1;
    }
    let ghost c = role_count_upto(*cfg, cfg.resources@.len() as int);
    let l = links.len() as u64;
    if saturated {
        assert(c * (links@.len() + 1) >= c) by (nonlinear_arith)
            requires
                c > u64::MAX,
        ;
        return u64::MAX;
    }
    if l == u64::MAX {
        assert(c * (links@.len() + 1) == c * links@.len() + c) by (nonlinear_arith);
        if total == 0 {
            return 0;
        }
        assert(c * (links@.len() + 1) > u64::MAX) by (nonlinear_arith)
            requires
                c >= 1,
                links@.len() == u64::MAX,
        ;
        return u64::MAX;
    }
    match total.checked_mul(l + 1) {
        Some(d) => d,
        None => u64::MAX,
    }
}

/// Whether any of the actor's `roles` allows `action` on `resource`, where
/// `links` tells which resources belong to which.
pub fn role_allows(
    cfg: &RolesConfig,
    links: &Vec<ParentLink>,
    roles: &Vec<RoleAssignment>,
    action: &String,
    resource: &Instance,
) -> (r: bool)
    ensures
        r == allows(*cfg, links@, roles@, action@, *resource),
{
    let depth = search_depth_exec(cfg, links);
    let mut k: usize = 0;
    while k < roles.len()
        invariant
            k <= roles@.len(),
            depth as nat == search_depth(*cfg, links@),
            forall|q: int|
                0 <= q < k ==> !assignment_allows(*cfg, links@, #[trigger] roles@[q], action@, *resource),
        decreases roles@.len() - k,
    {
        let a = &roles[k];
        match find_role_exec(cfg, &a.resource.kind, &a.role) {
            Some((i, j)) => {
                if grants_exec(cfg, links, i, j, &a.resource, action, resource, depth) {
                    assert(assignment_allows(*cfg, links@, roles@[k as int], action@, *resource));
                    return true;
                }
            },
            None => {},
        }
        k = k + 1;
    }
    false
}

/// The role declarations in force after trying to load `cfg` over `committed`.
pub open spec fn load_spec(committed: Option<RolesConfig>, cfg: RolesConfig) -> Option<RolesConfig> {
    if all_have_actions_or_roles(cfg) && all_resolve(cfg) {
        Some(cfg)
    } else {
        committed
    }
}

pub open spec fn policy_allows(
    committed: Option<RolesConfig>,
    links: Seq<ParentLink>,
    roles: Seq<RoleAssignment>,
    act: Seq<char>,
    t: Instance,
) -> bool {
    match committed {
        Some(cfg) => allows(cfg, links, roles, act, t),
        None => false,
    }
}

/// The role declarations a policy has committed.
pub struct Policy {
    roles: Option<RolesConfig>,
}

impl Policy {
    pub closed spec fn committed(&self) -> Option<RolesConfig> {
        self.roles
    }

    /// A policy with no role declarations, which allows nothing.
    pub fn new() -> (r: Policy)
        ensures
            r.committed().is_none(),
    {
        Policy { roles: None }
    }

    /// Validates `cfg` and commits it whole, or leaves the policy as it was.
    pub fn load_roles(&mut self, cfg: RolesConfig) -> (r: Result<(), RolesError>)
        ensures
            r is Ok <==> all_have_actions_or_roles(cfg) && all_resolve(cfg),
            r is Err && r->Err_0 is MissingActionsOrRoles <==> !all_have_actions_or_roles(cfg),
            final(self).committed() == load_spec(old(self).committed(), cfg),
    {
        match validate_roles(&cfg) {
            Ok(()) => {
                self.roles = Some(cfg);
                Ok(())
            },
            Err(e) => Err(e),
        }
    }

    /// Whether the committed roles let an actor holding `roles` perform
    /// `action` on `resource`.
    pub fn allow(
        &self,
        links: &Vec<ParentLink>,
        roles: &Vec<RoleAssignment>,
        action: &String,
        resource: &Instance,
    ) -> (r: bool)
        ensures
            r == policy_allows(self.committed(), links@, roles@, action@, *resource),
    {
        match &self.roles {
            Some(cfg) => role_allows(cfg, links, roles, action, resource),
            None => false,
        }
    }
}

/// A load that fails validation changes no later answer.
pub proof fn lemma_failed_load_keeps_answers(
    committed: Option<RolesConfig>,
    cfg: RolesConfig,
    links: Seq<ParentLink>,
    roles: Seq<RoleAssignment>,
    act: Seq<char>,
    t: Instance,
)
    requires
        !(all_have_actions_or_roles(cfg) && all_resolve(cfg)),
    ensures
        load_spec(committed, cfg) == committed,
        policy_allows(load_spec(committed, cfg), links, roles, act, t) == policy_allows(
            committed,
            links,
            roles,
            act,
            t,
        ),
{
}

/// Loading the same role declarations twice answers every query as loading
/// them once does.
pub proof fn lemma_reload_idempotent(
    committed: Option<RolesConfig>,
    cfg: RolesConfig,
    links: Seq<ParentLink>,
    roles: Seq<RoleAssignment>,
    act: Seq<char>,
    t: Instance,
)
    ensures
        load_spec(load_spec(committed, cfg), cfg) == load_spec(committed, cfg),
        policy_allows(load_spec(load_spec(committed, cfg), cfg), links, roles, act, t)
            == policy_allows(load_spec(committed, cfg), links, roles, act, t),
{
}

} // verus!

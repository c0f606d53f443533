//! Which builds to analyze, and where their files lie.

use vstd::prelude::*;

verus! {

/// The command line: the project root, the subdirectories of the ARM9 and
/// ARM7 roots, and the names of the built ROMs.
#[derive(Clone, Debug)]
pub struct Args {
    /// Nintendo DS project root
    pub rootdir: String,
    /// Subdirectory containing the ARM9 root
    pub arm9subdir: Option<String>,
    /// Subdirectory containing the ARM7 root
    pub arm7subdir: Option<String>,
    /// Names of the built ROM(s)
    pub buildnames: Vec<String>,
}

/// Represents a build analysis spec
#[derive(Clone, Debug)]
pub struct RunPlan {
    /// The base directory containing the source code
    pub basedir: String,
    /// Optional, the subdir of `{basedir}/build` containing the build artifacts
    pub buildname: Option<String>,
    /// The stem of the ELF file in the build folder and the LSF file in the source root
    pub elf_stem: &'static str,
}

/// An optional string as characters.
pub open spec fn opt_view(o: Option<String>) -> Option<Seq<char>> {
    match o {
        Some(s) => Some(s@),
        None => None,
    }
}

/// A plan as (base directory, build name, ELF stem).
pub open spec fn plan_view(p: RunPlan) -> (Seq<char>, Option<Seq<char>>, Seq<char>) {
    (p.basedir@, opt_view(p.buildname), p.elf_stem@)
}

/// `a/b`.
pub open spec fn joined(a: Seq<char>, b: Seq<char>) -> Seq<char> {
    a + seq!['/'] + b
}

/// The stem of the ARM9 binary.
pub open spec fn arm9_stem() -> Seq<char> {
    seq!['m', 'a', 'i', 'n']
}

/// The stem of the ARM7 binary.
pub open spec fn arm7_stem() -> Seq<char> {
    seq!['i', 'c', 'h', 'n', 'e', 'u', 'm', 'o', 'n', '_', 's', 'u', 'b']
}

/// The plans of a command line: one per build name for the ARM9 root, if
/// there is one, then one for the ARM7 root, if there is one.
pub open spec fn plans_of(
    root: Seq<char>,
    arm9: Option<Seq<char>>,
    arm7: Option<Seq<char>>,
    names: Seq<Seq<char>>,
) -> Seq<(Seq<char>, Option<Seq<char>>, Seq<char>)> {
    let arm9_plans = match arm9 {
        Some(sub) => names.map_values(
            |n: Seq<char>| (joined(root, sub), Some(n), arm9_stem()),
        ),
        None => Seq::empty(),
    };
    let arm7_plans = match arm7 {
        Some(sub) => seq![(joined(root, sub), None::<Seq<char>>, arm7_stem())],
        None => Seq::empty(),
    };
    arm9_plans + arm7_plans
}

/// The ARM9 plans and the ARM7 plan are independent: the plans of a command
/// line are its ARM9 plans followed by the plans it would have with no ARM9
/// root and no build names, so the ARM7 binary is planned whatever the
/// build names are.
pub proof fn lemma_arm7_plan_ignores_build_names(
    root: Seq<char>,
    arm9: Option<Seq<char>>,
    arm7: Option<Seq<char>>,
    names: Seq<Seq<char>>,
)
    ensures
        plans_of(root, arm9, arm7, names) == plans_of(root, arm9, None, names) + plans_of(
            root,
            None,
            arm7,
            Seq::empty(),
        ),
{
    let p = plans_of(root, arm9, None, names);
    assert(p + Seq::<(Seq<char>, Option<Seq<char>>, Seq<char>)>::empty() =~= p);
    assert(Seq::<(Seq<char>, Option<Seq<char>>, Seq<char>)>::empty() + plans_of(
        root,
        None,
        arm7,
        Seq::empty(),
    ) =~= plans_of(root, None, arm7, Seq::empty()));
}

/// With an ARM7 root `sub`, the last plan is that of the ARM7 binary, in
/// `root/sub`, with no build name; before it come exactly the ARM9 plans,
/// one per build name in order when there is an ARM9 root `sub9` (in
/// `root/sub9`, stem `main`), none otherwise. Without an ARM7 root no plan
/// has the ARM7 stem.
pub proof fn lemma_plans_shape(
    root: Seq<char>,
    arm9: Option<Seq<char>>,
    arm7: Option<Seq<char>>,
    names: Seq<Seq<char>>,
)
    ensures
        ({
            let ps = plans_of(root, arm9, arm7, names);
            let n9 = if arm9 is Some {
                names.len() as int
            } else {
                0
            };
            &&& ps.len() == n9 + if arm7 is Some {
                1int
            } else {
                0
            }
            &&& forall|i: int|
                0 <= i < n9 ==> #[trigger] ps[i] == (
                    joined(root, arm9->0),
                    Some(names[i]),
                    arm9_stem(),
                )
            &&& arm7 matches Some(sub) ==> ps.last() == (
                joined(root, sub),
                None::<Seq<char>>,
                arm7_stem(),
            )
            &&& arm7 is None ==> forall|i: int| 0 <= i < ps.len() ==> #[trigger] ps[i].2 != arm7_stem()
        }),
{
    assert(arm9_stem()[0] != arm7_stem()[0]);
}

/// `a/b` as a string.
pub fn join_dir(a: &String, b: &String) -> (r: String)
    ensures
        r@ == joined(a@, b@),
{
    let mut r = a.clone();
    r.append("/");
    r.append(b.as_str());
    proof {
        reveal_strlit("/");
        assert("/"@ =~= seq!['/']);
    }
    r
}

impl Args {
    /// The analyses that the command line asks for, in order.
    pub fn plans(&self) -> (r: Vec<RunPlan>)
        ensures
            r@.map_values(|p: RunPlan| plan_view(p)) == plans_of(
                self.rootdir@,
                opt_view(self.arm9subdir),
                opt_view(self.arm7subdir),
                self.buildnames@.map_values(|s: String| s@),
            ),
    {
        proof {
            reveal_strlit("main");
            reveal_strlit("ichneumon_sub");
            assert("main"@ =~= arm9_stem());
            assert("ichneumon_sub"@ =~= arm7_stem());
        }
        let ghost names = self.buildnames@.map_values(|s: String| s@);
        let mut out: Vec<RunPlan> = Vec::new();
        if let Some(sub) = &self.arm9subdir {
            let basedir = join_dir(&self.rootdir, sub);
            let mut i: usize = 0;
            while i < self.buildnames.len()
                invariant
                    i <= self.buildnames@.len(),
                    names == self.buildnames@.map_values(|s: String| s@),
                    basedir@ == joined(self.rootdir@, sub@),
                    "main"@ == arm9_stem(),
                    out@.map_values(|p: RunPlan| plan_view(p)) == names.take(i as int).map_values(
                        |n: Seq<char>| (joined(self.rootdir@, sub@), Some(n), arm9_stem()),
                    ),
                decreases self.buildnames.len() - i,
            {
                let ghost before = out@;
                out.push(
                    RunPlan {
                        basedir: basedir.clone(),
                        buildname: Some(self.buildnames[i].clone()),
                        elf_stem: "main",
                    },
                );
                assert(names.take(i + 1) =~= names.take(i as int).push(names[i as int]));
                assert(out@.map_values(|p: RunPlan| plan_view(p)) =~= before.map_values(
                    |p: RunPlan| plan_view(p),
                ).push((joined(self.rootdir@, sub@), Some(names[i as int]), arm9_stem())));
                i = i + 1;
            }
            assert(names.take(names.len() as int) =~= names);
        }
        let ghost mid = out@;
        if let Some(sub) = &self.arm7subdir {
            out.push(
                RunPlan {
                    basedir: join_dir(&self.rootdir, sub),
                    buildname: None,
                    elf_stem: "ichneumon_sub",
                },
            );
        }
        assert(out@.map_values(|p: RunPlan| plan_view(p)) =~= plans_of(
            self.rootdir@,
            opt_view(self.arm9subdir),
            opt_view(self.arm7subdir),
            names,
        ));
        out
    }
}

impl RunPlan {
    /// The name a result is reported under: the build name, or else the ELF stem.
    pub fn label(&self) -> (r: String)
        ensures
            r@ == match opt_view(self.buildname) {
                Some(n) => n,
                None => self.elf_stem@,
            },
    {
        match &self.buildname {
            Some(n) => n.clone(),
            None => String::from_str(self.elf_stem),
        }
    }
}

/// A build to open directly by its file names.
#[derive(Clone, Debug)]
pub struct BuildAnalyzer {
    pub basedir: String,
    pub name: Option<String>,
}

/// The ELF that a `BuildAnalyzer` opens: `{basedir}/build/{name}/main.elf`,
/// or `{basedir}/build/ichneumon_sub.elf` without a name.
pub open spec fn analyzer_elf_name(basedir: Seq<char>, name: Option<Seq<char>>) -> Seq<char> {
    match name {
        Some(n) => basedir + seq!['/', 'b', 'u', 'i', 'l', 'd', '/'] + n + seq![
            '/',
            'm',
            'a',
            'i',
            'n',
            '.',
            'e',
            'l',
            'f',
        ],
        None => basedir + seq!['/', 'b', 'u', 'i', 'l', 'd', '/'] + arm7_stem() + seq![
            '.',
            'e',
            'l',
            'f',
        ],
    }
}

impl BuildAnalyzer {
    /// The ELF file of this build.
    pub fn elf_name(&self) -> (r: String)
        ensures
            r@ == analyzer_elf_name(self.basedir@, opt_view(self.name)),
    {
        proof {
            reveal_strlit("/build/");
            reveal_strlit("/main.elf");
            reveal_strlit("/build/ichneumon_sub.elf");
            assert("/build/"@ =~= seq!['/', 'b', 'u', 'i', 'l', 'd', '/']);
            assert("/main.elf"@ =~= seq!['/', 'm', 'a', 'i', 'n', '.', 'e', 'l', 'f']);
            assert("/build/ichneumon_sub.elf"@ =~= seq!['/', 'b', 'u', 'i', 'l', 'd', '/']
                + arm7_stem() + seq!['.', 'e', 'l', 'f']);
        }
        let mut r = self.basedir.clone();
        match &self.name {
            Some(n) => {
                r.append("/build/");
                r.append(n.as_str());
                r.append("/main.elf");
            },
            None => {
                r.append("/build/ichneumon_sub.elf");
            },
        }
        r
    }

    /// The link map of this build: the ELF file's name with `.xMAP` added.
    pub fn xmap_name(&self) -> (r: String)
        ensures
            r@ == analyzer_elf_name(self.basedir@, opt_view(self.name)) + seq![
                '.',
                'x',
                'M',
                'A',
                'P',
            ],
    {
        proof {
            reveal_strlit(".xMAP");
            assert(".xMAP"@ =~= seq!['.', 'x', 'M', 'A', 'P']);
        }
        let mut r = self.elf_name();
        r.append(".xMAP");
        r
    }
}

} // verus!

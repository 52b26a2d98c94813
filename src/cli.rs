use vstd::prelude::*;

use crate::text::{chars_of, string_of};

verus! {

/// The command-line arguments, the program's name first.
pub struct CLI {
    arguments: Vec<String>,
}

/// Too few arguments; the message lists the arguments given.
pub struct CLIInvalidArgumentsError(pub String);

/// The views of the arguments.
pub open spec fn argument_views(v: Seq<String>) -> Seq<Seq<char>> {
    v.map_values(|a: String| a@)
}

/// The texts `l` joined with `, ` between each two.
pub open spec fn comma_joined(l: Seq<Seq<char>>) -> Seq<char>
    decreases l.len(),
{
    if l.len() == 0 {
        Seq::<char>::empty()
    } else if l.len() == 1 {
        l[0]
    } else {
        comma_joined(l.drop_last()) + seq![',', ' '] + l.last()
    }
}

pub open spec fn invalid_arguments_prefix() -> Seq<char> {
    seq!['I', 'n', 'v', 'a', 'l', 'i', 'd', ' ', 'a', 'r', 'g', 'u', 'm', 'e', 'n', 't', 's', ':', ' ']
}

impl CLI {
    /// A program name and a mode are always there.
    #[verifier::type_invariant]
    spec fn inv(&self) -> bool {
        self.arguments.len() >= 2
    }

    /// The arguments as given.
    pub closed spec fn args(&self) -> Seq<Seq<char>> {
        argument_views(self.arguments@)
    }

    /// The arguments `arguments`, which must name the program and a mode; else an error whose
    /// message lists them.
    pub fn new(arguments: Vec<String>) -> (r: Result<Self, CLIInvalidArgumentsError>)
        ensures
            arguments@.len() >= 2 <==> r is Ok,
            r is Ok ==> r->Ok_0.args() == argument_views(arguments@),
            r is Err ==> r->Err_0.0@ == invalid_arguments_prefix() + comma_joined(
                argument_views(arguments@),
            ),
    {
        if arguments.len() < 2 {
            let mut message = vec!['I', 'n', 'v', 'a', 'l', 'i', 'd', ' ', 'a', 'r', 'g', 'u', 'm', 'e', 'n', 't', 's', ':', ' '];
            let ghost prefix = message@;
            assert(prefix =~= invalid_arguments_prefix());
            let ghost views = argument_views(arguments@);
            let mut i: usize = 0;
            while i < arguments.len()
                invariant
                    i <= arguments.len(),
                    views == argument_views(arguments@),
                    message@ == prefix + comma_joined(views.take(i as int)),
                decreases arguments.len() - i,
            {
                assert(views.take(i + 1).drop_last() =~= views.take(i as int));
                if i > 0 {
                    message.push(',');
                    message.push(' ');
                }
                let mut a = chars_of(arguments[i].as_str());
                message.append(&mut a);
                i += 1;
                assert(message@ =~= prefix + comma_joined(views.take(i as int)));
            }
            assert(views.take(i as int) =~= views);
            return Err(CLIInvalidArgumentsError(string_of(&message)));
        }
        Ok(CLI { arguments })
    }

    pub fn arguments(&self) -> (r: &Vec<String>)
        ensures
            argument_views(r@) == self.args(),
            r@.len() >= 2,
    {
        proof {
            use_type_invariant(self);
        }
        &self.arguments
    }
}

} // verus!

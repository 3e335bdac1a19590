# tdx_guest

Looks into a Linux guest from the hypervisor that runs it: finds the kernel's banner in the
guest's memory, derives from it where the table of TCP sockets lies, and walks that table for
connections that were not logged before.

The library decides and never touches guest memory. Each of its functions is a step of a task:
from the task's state and an event to the next state and either a question about the guest
(`GuestRequest`) or the result. `app/` holds the state between calls and puts the questions to
the hypervisor.

| module          | what it holds                                                      |
|-----------------|--------------------------------------------------------------------|
| `guest_mem`     | questions, answers, models of a guest, page arithmetic             |
| `guest_read`    | reading guest virtual memory page by page                          |
| `guest_word`    | reading single words                                               |
| `banner`        | what a banner is, and how it is shown                              |
| `guest_symbols` | the search for the banner and for the TCP hash table               |
| `sock_cache`    | the bounded memory of sockets that were logged                     |
| `tcp_sock`      | one socket                                                         |
| `tcp_bucket`    | one bucket of the table: a list of sockets                         |
| `tcp_log`       | the whole table                                                    |

The contract of each step says exactly what the next state and the next question are. The
proof functions whose names begin with `law_` say what the steps amount to: driven to its end
against any guest, even one that changes between two questions, a task gives the result that
the plain definitions (`guest_slice`, `first_banner`, `table_socks`) describe.

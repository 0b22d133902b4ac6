# sleepytale

Runs a Hytale server only while someone is playing.

sleepytale owns the public UDP port. While a server is down it stays silent; the first QUIC
Initial from a client boots the backend and is delivered to it once it is ready. Once up it
relays raw UDP, so QUIC and mTLS run end-to-end. After `idle_timeout` with no sessions, the
backend is stopped and the port goes quiet again.

```
Sleeping   nothing runs; a QUIC Initial starts the backend
Waking     Initials are held while the backend boots; everything else is dropped
Running    held Initials are delivered, then datagrams are relayed to the backend
Stopping   as Waking, until the backend is gone
```

Several servers can share the port: a client's first Initial chooses one by the name in its
ClientHello, and its address then belongs to that backend until its session expires.

## Layout

The library under `src/` makes every decision and is verified with Verus. The program under
`app/` does the reading, sending, spawning and waiting, and asks the library what to do.

| Module | What it decides |
| --- | --- |
| `sni`, `frames`, `hello`, `reader`, `crypto` | which name a protected Initial offers |
| `writing` | that what a client writes is what those read |
| `knock` | whether a datagram is worth waking a backend for |
| `retry` | what a Retry in reply to an Initial looks like |
| `config`, `routes`, `address`, `text`, `time` | what a configuration means and whether it can work |
| `relay`, `clients` | which sessions there are and when they end |
| `phase` | the lifecycle of one backend |
| `state` | the proxy as a whole |
| `infra::process`, `infra::stopping`, `infra::console` | when a child process is ready, how it is stopped, who gets the console |

What is believed rather than proved are the calls into `aes`, `aes-gcm`, `hkdf` and `sha2` in
`crypto`, and a few functions of the standard library in `text`, `retry` and `config`; each is a
small function whose comment says what is claimed of it.

## Configuration

All keys are optional; durations are plain seconds.

| Key | Default | Meaning |
| --- | --- | --- |
| `listen` | `[::]:5520` | Address players connect to. Unspecified IPv6 also serves IPv4 clients. |
| `backend` | `127.0.0.1:5521` | Address the server binds. Must differ from `listen`; keep it on loopback. |
| `idle_timeout` | `900` | Stop a backend after this long with no active sessions. |
| `boot_timeout` | `300` | Give up waking if the boot banner has not appeared. |
| `session_timeout` | `90` | Drop a session after this long without a datagram. Must exceed the server's own idle timeout. |
| `shutdown_grace` | `10` | Time a backend gets to exit on SIGTERM before it is killed. |
| `server.command` | `java` | Program to run. |
| `server.args` | `["-jar", "HytaleServer.jar"]` | Arguments; `-b <backend>` is appended. |
| `server.working_dir` | `.` | Working directory for the child process. |
| `server.forward_stdin` | `true` | Forward this process's stdin to the server console; the first backend that asks gets it. |
| `routes."<name>"` | none | A further backend: `backend`, and the same keys as `server`. |
